//! What holds of every state that the analysis reaches.

use crate::chars::C_SEMICOLON;
use crate::dependencies::BalancedItem;
use crate::dependencies::Range;
use crate::dependencies::Warning;
use crate::model::DependencyModel;
use crate::model::ImportModel;
use crate::model::LayerModel;
use crate::model::ScopeModel;
use crate::model::StateModel;
use crate::model::SupportsModel;
use crate::scan::is_boundary;
use crate::text::lower;
use vstd::prelude::*;
use vstd::string::StringSliceAdditionalSpecFns;

verus! {

/// The span of the source that a dependency asks the consumer to rewrite:
/// every dependency has one but an import and an export.
pub open spec fn rewritten_span(d: DependencyModel) -> Option<Range> {
    match d {
        DependencyModel::Url { range, .. } => Some(range),
        DependencyModel::Replace { range, .. } => Some(range),
        DependencyModel::LocalIdent { range, .. } => Some(range),
        DependencyModel::LocalVar { range, .. } => Some(range),
        DependencyModel::LocalVarDecl { name_range, .. } => Some(name_range),
        DependencyModel::Import { .. } => None,
        DependencyModel::ICSSExport { .. } => None,
    }
}

/// The span `r` of `src` starts with `@import`, in any case of letters, and
/// ends with `;`.
pub open spec fn delimits_import(src: Seq<u8>, r: Range) -> bool {
    &&& r.start + 7 < r.end <= src.len()
    &&& lower(src.subrange(r.start as int, r.start + 7)) == "@import".spec_bytes()
    &&& src[r.end - 1] == C_SEMICOLON
}

/// A dependency that CSS Modules bring: any but a URL and an import.
pub open spec fn from_modules(d: DependencyModel) -> bool {
    !(d is Url || d is Import)
}

/// The dependency `d` lies before `frontier` in `src`, and is one that the
/// analyzer emits with CSS Modules on or off as `modules` says.
pub open spec fn dependency_ok(d: DependencyModel, src: Seq<u8>, frontier: int, modules: bool)
    -> bool {
    &&& match rewritten_span(d) {
        Some(r) => r.start <= r.end <= frontier,
        None => true,
    }
    &&& d matches DependencyModel::Import { range, .. } ==> range.end <= frontier
        && delimits_import(src, range)
    &&& from_modules(d) ==> modules
}

pub open spec fn dependencies_ok(
    deps: Seq<DependencyModel>,
    src: Seq<u8>,
    frontier: int,
    modules: bool,
) -> bool {
    forall|i: int| 0 <= i < deps.len() ==> dependency_ok(#[trigger] deps[i], src, frontier, modules)
}

/// Of two dependencies, the span of the second starts where that of the
/// first ends, or later.
pub open spec fn in_order(a: DependencyModel, b: DependencyModel) -> bool {
    rewritten_span(a) is Some && rewritten_span(b) is Some ==> rewritten_span(a)->0.end
        <= rewritten_span(b)->0.start
}

/// The rewritten spans come in the order of the source, none reaching
/// into the next.
pub open spec fn spans_in_order(deps: Seq<DependencyModel>) -> bool {
    forall|i: int, j: int|
        0 <= i < j < deps.len() ==> in_order(#[trigger] deps[i], #[trigger] deps[j])
}

pub open spec fn warning_ok(w: Warning, len: int) -> bool {
    match w {
        Warning::Unexpected { unexpected, range } => unexpected.within(len) && range.within(len),
        Warning::DuplicateUrl { range } => range.within(len),
        Warning::NamespaceNotSupportedInBundledCss { range } => range.within(len),
        Warning::NotPrecededAtImport { range } => range.within(len),
        Warning::ExpectedUrl { range } => range.within(len),
        Warning::ExpectedBefore { should_after, range } => should_after.within(len)
            && range.within(len),
    }
}

pub open spec fn warnings_ok(warnings: Seq<Warning>, len: int) -> bool {
    forall|i: int| 0 <= i < warnings.len() ==> warning_ok(#[trigger] warnings[i], len)
}

/// A span that ends at a boundary before `frontier`.
pub open spec fn closed_span(r: Range, src: Seq<u8>, frontier: int) -> bool {
    r.start <= r.end <= frontier && is_boundary(src, r.end as int)
}

pub open spec fn balanced_ok(balanced: Seq<BalancedItem>, src: Seq<u8>, frontier: int) -> bool {
    forall|i: int|
        0 <= i < balanced.len() ==> closed_span((#[trigger] balanced[i]).range, src, frontier)
}

pub open spec fn import_ok(import: ImportModel, src: Seq<u8>, frontier: int) -> bool {
    &&& import.start + 7 <= frontier
    &&& lower(src.subrange(import.start as int, import.start + 7)) == "@import".spec_bytes()
    &&& import.url_range matches Some(r) ==> closed_span(r, src, frontier)
    &&& import.layer matches LayerModel::EndLayer { range, .. } ==> closed_span(
        range,
        src,
        frontier,
    )
    &&& import.supports matches SupportsModel::EndSupports { range, .. } ==> closed_span(
        range,
        src,
        frontier,
    )
    &&& import.supports matches SupportsModel::InSupports { start } ==> start <= frontier
}

pub open spec fn scope_ok(s: StateModel, src: Seq<u8>, frontier: int) -> bool {
    &&& s.scope matches ScopeModel::InAtImport(import) ==> import_ok(import, src, frontier)
    &&& s.scope is InBlock ==> s.block_nesting_level >= 1
    &&& s.block_nesting_level <= frontier
}

/// The state `s` is one that the analyzer can be in once it has read `src`
/// up to `frontier`.
pub open spec fn state_ok(s: StateModel, src: Seq<u8>, frontier: int) -> bool {
    &&& 0 <= frontier <= src.len() <= usize::MAX
    &&& dependencies_ok(s.dependencies, src, frontier, s.mode is Some)
    &&& spans_in_order(s.dependencies)
    &&& warnings_ok(s.warnings, src.len() as int)
    &&& balanced_ok(s.balanced, src, frontier)
    &&& scope_ok(s, src, frontier)
}

/// Reading on keeps a state in order.
pub proof fn lemma_advance(s: StateModel, src: Seq<u8>, frontier: int, further: int)
    requires
        state_ok(s, src, frontier),
        frontier <= further <= src.len(),
    ensures
        state_ok(s, src, further),
{
    assert forall|i: int| 0 <= i < s.dependencies.len() implies dependency_ok(
        #[trigger] s.dependencies[i],
        src,
        further,
        s.mode is Some,
    ) by {
        assert(dependency_ok(s.dependencies[i], src, frontier, s.mode is Some));
    }
    assert forall|i: int| 0 <= i < s.balanced.len() implies closed_span(
        (#[trigger] s.balanced[i]).range,
        src,
        further,
    ) by {
        assert(closed_span(s.balanced[i].range, src, frontier));
    }
}

/// A dependency that starts at the frontier, or later, may be emitted
/// once the source is read up to its end.
pub proof fn lemma_emit(
    s: StateModel,
    src: Seq<u8>,
    frontier: int,
    d: DependencyModel,
    further: int,
)
    requires
        state_ok(s, src, frontier),
        frontier <= further <= src.len(),
        rewritten_span(d) matches Some(r) ==> frontier <= r.start,
        dependency_ok(d, src, further, s.mode is Some),
    ensures
        state_ok(s.emit(d), src, further),
{
    let t = s.emit(d);
    lemma_advance(s, src, frontier, further);
    assert forall|i: int| 0 <= i < t.dependencies.len() implies dependency_ok(
        #[trigger] t.dependencies[i],
        src,
        further,
        t.mode is Some,
    ) by {
        if i < s.dependencies.len() {
            assert(t.dependencies[i] == s.dependencies[i]);
        }
    }
    assert forall|i: int, j: int| 0 <= i < j < t.dependencies.len() implies in_order(
        #[trigger] t.dependencies[i],
        #[trigger] t.dependencies[j],
    ) by {
        assert(t.dependencies[i] == s.dependencies[i]);
        assert(dependency_ok(s.dependencies[i], src, frontier, s.mode is Some));
        if j < s.dependencies.len() {
            assert(t.dependencies[j] == s.dependencies[j]);
        }
    }
}

/// A warning about spans of the source may be given at any time.
pub proof fn lemma_warn(s: StateModel, src: Seq<u8>, frontier: int, w: Warning)
    requires
        state_ok(s, src, frontier),
        warning_ok(w, src.len() as int),
    ensures
        state_ok(s.warn(w), src, frontier),
{
    let t = s.warn(w);
    assert forall|i: int| 0 <= i < t.warnings.len() implies warning_ok(
        #[trigger] t.warnings[i],
        src.len() as int,
    ) by {
        if i < s.warnings.len() {
            assert(t.warnings[i] == s.warnings[i]);
        }
    }
}

} // verus!
