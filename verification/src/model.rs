//! The analysis as mathematics: the state of the analyzer as plain values,
//! and what each token makes of it.

use crate::chars::C_COLON;
use crate::chars::C_FULL_STOP;
use crate::chars::C_HYPHEN_MINUS;
use crate::chars::C_LEFT_CURLY;
use crate::chars::C_NUMBER_SIGN;
use crate::chars::C_RIGHT_CURLY;
use crate::chars::C_RIGHT_PARENTHESIS;
use crate::chars::C_SEMICOLON;
use crate::chars::C_SOLIDUS;
use crate::dependencies::BalancedItem;
use crate::dependencies::BalancedItemKind;
use crate::dependencies::CssModulesMode;
use crate::dependencies::Range;
use crate::dependencies::UrlRangeKind;
use crate::dependencies::Warning;
use crate::lexer::char_end;
use crate::lexer::Event;
use crate::lexer::Pos;
use crate::scan::ident_end;
use crate::scan::lemma_trivia_end;
use crate::scan::starts_comment;
use crate::scan::trivia_end;
use crate::text::lower;
use crate::text::trim_end_pos;
use crate::text::trim_start_pos;
use crate::token::token_at;
use crate::token::TokenKind;
use crate::token::TokenModel;
use vstd::prelude::*;
use vstd::string::StringSliceAdditionalSpecFns;

verus! {

/// A dependency, with the bytes of each text it holds.
pub ghost enum DependencyModel {
    Url { request: Seq<u8>, range: Range, kind: UrlRangeKind },
    Import {
        request: Seq<u8>,
        range: Range,
        layer: Option<Seq<u8>>,
        supports: Option<Seq<u8>>,
        media: Option<Seq<u8>>,
    },
    Replace { content: Seq<u8>, range: Range },
    LocalIdent { name: Seq<u8>, range: Range },
    LocalVar { name: Seq<u8>, range: Range },
    LocalVarDecl { name_range: Range, name: Seq<u8>, value: Seq<u8> },
    ICSSExport { prop: Seq<u8>, value: Seq<u8> },
}

pub ghost enum SupportsModel {
    Absent,
    InSupports { start: Pos },
    EndSupports { value: Seq<u8>, range: Range },
}

pub ghost enum LayerModel {
    Absent,
    EndLayer { value: Seq<u8>, range: Range },
}

/// What is known of the `@import` rule that is being read.
pub ghost struct ImportModel {
    pub start: Pos,
    pub url: Option<Seq<u8>>,
    pub url_range: Option<Range>,
    pub supports: SupportsModel,
    pub layer: LayerModel,
}

pub ghost enum ScopeModel {
    TopLevel,
    InBlock,
    InAtImport(ImportModel),
    AtImportInvalid,
    AtNamespaceInvalid,
}

pub ghost struct ModeModel {
    pub default: CssModulesMode,
    pub current: CssModulesMode,
}

/// The state of the analyzer, and all it has emitted.
pub ghost struct StateModel {
    pub mode: Option<ModeModel>,
    pub scope: ScopeModel,
    pub block_nesting_level: nat,
    pub allow_import_at_rule: bool,
    pub balanced: Seq<BalancedItem>,
    pub is_next_rule_prelude: bool,
    pub dependencies: Seq<DependencyModel>,
    pub warnings: Seq<Warning>,
}

/// How an event ended: the state after it, the cursor after it, and whether
/// the pass goes on. It does not where the source ended in the middle of a
/// construct.
pub ghost struct Outcome {
    pub state: StateModel,
    pub pos: int,
    pub done: bool,
}

pub open spec fn span(start: int, end: int) -> Range {
    Range { start: start as usize, end: end as usize }
}

impl ModeModel {
    /// Names are local: the current mode says so, or is unset and the
    /// default says so.
    pub open spec fn is_local(self) -> bool {
        match self.current {
            CssModulesMode::Local => true,
            CssModulesMode::Global => false,
            CssModulesMode::Unset => self.default is Local,
        }
    }

    pub open spec fn set(self, current: CssModulesMode) -> ModeModel {
        ModeModel { current, ..self }
    }
}

impl ImportModel {
    pub open spec fn fresh(start: Pos) -> ImportModel {
        ImportModel {
            start,
            url: None,
            url_range: None,
            supports: SupportsModel::Absent,
            layer: LayerModel::Absent,
        }
    }

    pub open spec fn layer_range(self) -> Option<Range> {
        match self.layer {
            LayerModel::EndLayer { range, .. } => Some(range),
            LayerModel::Absent => None,
        }
    }

    pub open spec fn supports_range(self) -> Option<Range> {
        match self.supports {
            SupportsModel::EndSupports { range, .. } => Some(range),
            _ => None,
        }
    }

    /// The end of the last of url, layer and supports: where the media
    /// query list starts.
    pub open spec fn last_end(self) -> Pos {
        match self.supports_range() {
            Some(r) => r.end,
            None => match self.layer_range() {
                Some(r) => r.end,
                None => self.url_range->0.end,
            },
        }
    }
}

/// The kind that a function or pseudo function of this name opens.
pub open spec fn classify(name: Seq<u8>) -> BalancedItemKind {
    if name == "url".spec_bytes() {
        BalancedItemKind::Url
    } else if name == "image-set".spec_bytes() {
        BalancedItemKind::ImageSet
    } else if name == "layer".spec_bytes() {
        BalancedItemKind::Layer
    } else if name == "supports".spec_bytes() {
        BalancedItemKind::Supports
    } else if name == ":local".spec_bytes() {
        BalancedItemKind::Local
    } else if name == ":global".spec_bytes() {
        BalancedItemKind::Global
    } else {
        BalancedItemKind::Other
    }
}

/// The media query list of an `@import`: what stands between `from` and
/// `to` after the white space and comments that lead it; nothing where
/// that is empty.
pub open spec fn media(src: Seq<u8>, from: int, to: int) -> Option<Seq<u8>> {
    if trivia_end(src, from) < to {
        Some(src.subrange(trivia_end(src, from), to))
    } else {
        None
    }
}

/// Index of the first `}` or `;` at or after `p`; the length of the source
/// where there is none.
pub open spec fn value_end(src: Seq<u8>, p: int) -> int
    decreases src.len() - p,
{
    if p < 0 || p >= src.len() {
        src.len() as int
    } else if src[p] == C_RIGHT_CURLY || src[p] == C_SEMICOLON {
        p
    } else {
        value_end(src, p + 1)
    }
}

/// Index of the first `:`, `}`, `;` or `/*` at or after `p`; the length of
/// the source where there is none.
pub open spec fn prop_end(src: Seq<u8>, p: int) -> int
    decreases src.len() - p,
{
    if p < 0 || p >= src.len() {
        src.len() as int
    } else if src[p] == C_COLON || src[p] == C_RIGHT_CURLY || src[p] == C_SEMICOLON {
        p
    } else if src[p] == C_SOLIDUS && p + 1 >= src.len() {
        src.len() as int
    } else if starts_comment(src, p) {
        p
    } else {
        prop_end(src, p + 1)
    }
}

pub proof fn lemma_value_end(src: Seq<u8>, p: int)
    requires
        0 <= p <= src.len(),
    ensures
        p <= value_end(src, p) <= src.len(),
        value_end(src, p) < src.len() ==> src[value_end(src, p)] == C_RIGHT_CURLY
            || src[value_end(src, p)] == C_SEMICOLON,
    decreases src.len() - p,
{
    if p < src.len() && !(src[p] == C_RIGHT_CURLY || src[p] == C_SEMICOLON) {
        lemma_value_end(src, p + 1);
    }
}

pub proof fn lemma_prop_end(src: Seq<u8>, p: int)
    requires
        0 <= p <= src.len(),
    ensures
        p <= prop_end(src, p) <= src.len(),
        prop_end(src, p) < src.len() ==> src[prop_end(src, p)] < 0x80,
    decreases src.len() - p,
{
    if p >= src.len() {
    } else if src[p] == C_COLON || src[p] == C_RIGHT_CURLY || src[p] == C_SEMICOLON {
    } else if src[p] == C_SOLIDUS && p + 1 >= src.len() {
    } else if starts_comment(src, p) {
    } else {
        lemma_prop_end(src, p + 1);
    }
}

/// The cursor after a value that ends at `ve`: past the `;` that ends it
/// and the white space and comments after that, or at the `}`.
pub open spec fn after_value(src: Seq<u8>, ve: int) -> int {
    if src[ve] == C_SEMICOLON {
        trivia_end(src, ve + 1)
    } else {
        ve
    }
}

impl StateModel {
    pub open spec fn initial(mode: Option<ModeModel>) -> StateModel {
        StateModel {
            mode,
            scope: ScopeModel::TopLevel,
            block_nesting_level: 0,
            allow_import_at_rule: true,
            balanced: Seq::empty(),
            is_next_rule_prelude: true,
            dependencies: Seq::empty(),
            warnings: Seq::empty(),
        }
    }

    pub open spec fn emit(self, d: DependencyModel) -> StateModel {
        StateModel { dependencies: self.dependencies.push(d), ..self }
    }

    pub open spec fn warn(self, w: Warning) -> StateModel {
        StateModel { warnings: self.warnings.push(w), ..self }
    }

    pub open spec fn with_scope(self, scope: ScopeModel) -> StateModel {
        StateModel { scope, ..self }
    }

    pub open spec fn with_current(self, current: CssModulesMode) -> StateModel {
        match self.mode {
            Some(m) => StateModel { mode: Some(m.set(current)), ..self },
            None => self,
        }
    }

    /// CSS Modules are on and names met now are local.
    pub open spec fn is_local(self) -> bool {
        self.mode matches Some(m) && m.is_local()
    }

    /// The pass goes on from `pos` in this state.
    pub open spec fn done(self, pos: int) -> Outcome {
        Outcome { state: self, pos, done: true }
    }

    /// The pass stops at `pos` in this state.
    pub open spec fn stop(self, pos: int) -> Outcome {
        Outcome { state: self, pos, done: false }
    }

    /// The kind of the innermost open bracket, if any is open.
    pub open spec fn innermost(self) -> Option<BalancedItemKind> {
        if self.balanced.len() > 0 {
            Some(self.balanced.last().kind)
        } else {
            None
        }
    }

    /// A second URL in one `@import`: a warning, and the rule is given up.
    pub open spec fn duplicate_url(self, import: ImportModel, end: Pos) -> StateModel {
        self.warn(Warning::DuplicateUrl { range: Range { start: import.start, end } }).with_scope(
            ScopeModel::TopLevel,
        )
    }

    /// An unquoted `url(...)` with the content `[content_start,
    /// content_end)`.
    pub open spec fn on_url(
        self,
        src: Seq<u8>,
        start: Pos,
        end: Pos,
        content_start: Pos,
        content_end: Pos,
    ) -> StateModel {
        let value = src.subrange(content_start as int, content_end as int);
        match self.scope {
            ScopeModel::InAtImport(import) => {
                if import.supports is InSupports {
                    self
                } else if import.url is Some {
                    self.duplicate_url(import, end)
                } else {
                    self.with_scope(
                        ScopeModel::InAtImport(
                            ImportModel {
                                url: Some(value),
                                url_range: Some(Range { start, end }),
                                ..import
                            },
                        ),
                    )
                }
            },
            ScopeModel::InBlock => self.emit(
                DependencyModel::Url {
                    request: value,
                    range: Range { start, end },
                    kind: UrlRangeKind::Function,
                },
            ),
            _ => self,
        }
    }

    /// A string, quotes included in `[start, end)`.
    pub open spec fn on_string(self, src: Seq<u8>, start: Pos, end: Pos) -> StateModel {
        let value = src.subrange(start + 1, end - 1);
        match self.scope {
            ScopeModel::InAtImport(import) => {
                let inside_url = self.innermost() == Some(BalancedItemKind::Url);
                if import.supports is InSupports || (!inside_url && import.url is Some) {
                    self
                } else if import.url is Some {
                    self.duplicate_url(import, end)
                } else {
                    self.with_scope(
                        ScopeModel::InAtImport(
                            ImportModel {
                                url: Some(value),
                                url_range: if inside_url {
                                    import.url_range
                                } else {
                                    Some(Range { start, end })
                                },
                                ..import
                            },
                        ),
                    )
                }
            },
            ScopeModel::InBlock => match self.innermost() {
                Some(BalancedItemKind::Url) => self.emit(
                    DependencyModel::Url {
                        request: value,
                        range: Range { start, end },
                        kind: UrlRangeKind::String,
                    },
                ),
                Some(BalancedItemKind::ImageSet) => self.emit(
                    DependencyModel::Url {
                        request: value,
                        range: Range { start, end },
                        kind: UrlRangeKind::Function,
                    },
                ),
                _ => self,
            },
            _ => self,
        }
    }

    /// An at-keyword. Its name counts in any case of letters.
    pub open spec fn on_at_keyword(self, src: Seq<u8>, start: Pos, end: Pos) -> StateModel {
        let name = lower(src.subrange(start as int, end as int));
        if name == "@namespace".spec_bytes() {
            self.with_scope(ScopeModel::AtNamespaceInvalid).warn(
                Warning::NamespaceNotSupportedInBundledCss { range: Range { start, end } },
            )
        } else if name == "@import".spec_bytes() {
            if !self.allow_import_at_rule {
                self.with_scope(ScopeModel::AtImportInvalid).warn(
                    Warning::NotPrecededAtImport { range: Range { start, end } },
                )
            } else {
                self.with_scope(ScopeModel::InAtImport(ImportModel::fresh(start)))
            }
        } else if name == "@media".spec_bytes() || name == "@supports".spec_bytes() || name
            == "@layer".spec_bytes() || name == "@container".spec_bytes() {
            StateModel { is_next_rule_prelude: true, ..self }
        } else {
            self
        }
    }

    /// The `;` that ends an `@import` of which `import` is known: the
    /// dependency, or the warning that says what is wrong with the rule.
    pub open spec fn finish_import(
        self,
        src: Seq<u8>,
        import: ImportModel,
        start: Pos,
        end: Pos,
    ) -> StateModel {
        let top = self.with_scope(ScopeModel::TopLevel);
        let whole = Range { start: import.start, end };
        if import.url is None {
            top.warn(Warning::ExpectedUrl { range: whole })
        } else if import.url_range is None {
            top.warn(Warning::Unexpected { unexpected: Range { start, end }, range: whole })
        } else {
            let url_range = import.url_range->0;
            if import.layer_range() is Some && url_range.start > import.layer_range()->0.start {
                top.warn(
                    Warning::ExpectedBefore {
                        should_after: import.layer_range()->0,
                        range: url_range,
                    },
                )
            } else {
                let warned = match import.supports {
                    SupportsModel::InSupports { start: supports_start } => top.warn(
                        Warning::Unexpected {
                            unexpected: Range { start, end },
                            range: Range { start: supports_start, end },
                        },
                    ),
                    _ => top,
                };
                if import.supports_range() is Some && url_range.start
                    > import.supports_range()->0.start {
                    warned.warn(
                        Warning::ExpectedBefore {
                            should_after: import.supports_range()->0,
                            range: url_range,
                        },
                    )
                } else if import.layer_range() is Some && import.supports_range() is Some
                    && import.layer_range()->0.start > import.supports_range()->0.start {
                    warned.warn(
                        Warning::ExpectedBefore {
                            should_after: import.supports_range()->0,
                            range: import.layer_range()->0,
                        },
                    )
                } else {
                    warned.emit(
                        DependencyModel::Import {
                            request: import.url->0,
                            range: whole,
                            layer: match import.layer {
                                LayerModel::EndLayer { value, .. } => Some(value),
                                LayerModel::Absent => None,
                            },
                            supports: match import.supports {
                                SupportsModel::EndSupports { value, .. } => Some(value),
                                _ => None,
                            },
                            media: media(src, import.last_end() as int, start as int),
                        },
                    )
                }
            }
        }
    }

    pub open spec fn on_semicolon(self, src: Seq<u8>, start: Pos, end: Pos) -> StateModel {
        match self.scope {
            ScopeModel::InAtImport(import) => self.finish_import(src, import, start, end),
            ScopeModel::AtImportInvalid | ScopeModel::AtNamespaceInvalid => self.with_scope(
                ScopeModel::TopLevel,
            ),
            _ => self,
        }
    }

    pub open spec fn push_balanced(self, kind: BalancedItemKind, start: Pos, end: Pos)
        -> StateModel {
        StateModel {
            balanced: self.balanced.push(BalancedItem { kind, range: Range { start, end } }),
            ..self
        }
    }

    /// A function token, before what `var(` brings with it.
    pub open spec fn open_function(self, src: Seq<u8>, start: Pos, end: Pos) -> StateModel {
        let name = lower(src.subrange(start as int, end - 1));
        let pushed = self.push_balanced(classify(name), start, end);
        match self.scope {
            ScopeModel::InAtImport(import) if name == "supports".spec_bytes() => pushed.with_scope(
                ScopeModel::InAtImport(
                    ImportModel { supports: SupportsModel::InSupports { start }, ..import },
                ),
            ),
            _ => pushed,
        }
    }

    /// What follows `var(`, read from `pos`: a custom property name and
    /// the `)`, or a warning.
    pub open spec fn local_var(self, src: Seq<u8>, pos: int, start: Pos) -> Outcome {
        let here = trivia_end(src, pos);
        let next = char_end(src, here);
        if here >= src.len() {
            self.stop(here)
        } else if src[here] == C_HYPHEN_MINUS && next >= src.len() {
            self.stop(here)
        } else if !(src[here] == C_HYPHEN_MINUS && src[next] == C_HYPHEN_MINUS) {
            if next >= src.len() {
                self.stop(here)
            } else {
                let e = char_end(src, next);
                self.warn(
                    Warning::Unexpected {
                        unexpected: span(here, e),
                        range: span(start as int, e),
                    },
                ).done(here)
            }
        } else {
            let there = ident_end(src, here);
            let close = trivia_end(src, there);
            if close >= src.len() {
                self.stop(close)
            } else if src[close] != C_RIGHT_PARENTHESIS {
                let e = char_end(src, close);
                self.warn(
                    Warning::Unexpected { unexpected: span(close, e), range: span(here + 2, e) },
                ).done(close)
            } else {
                self.emit(
                    DependencyModel::LocalVar {
                        name: src.subrange(here + 2, there),
                        range: span(here, there),
                    },
                ).done(close)
            }
        }
    }

    pub open spec fn on_function(self, src: Seq<u8>, start: Pos, end: Pos) -> Outcome {
        let opened = self.open_function(src, start, end);
        if opened.is_local() && lower(src.subrange(start as int, end - 1)) == "var".spec_bytes() {
            opened.local_var(src, end as int, start)
        } else {
            opened.done(end as int)
        }
    }

    pub open spec fn on_left_parenthesis(self, start: Pos, end: Pos) -> StateModel {
        self.push_balanced(BalancedItemKind::Other, start, end)
    }

    /// A `)`: it closes the innermost open bracket, if any is open.
    pub open spec fn on_right_parenthesis(self, src: Seq<u8>, start: Pos, end: Pos)
        -> StateModel {
        if self.balanced.len() == 0 {
            self
        } else {
            let last = self.balanced.last();
            let popped = StateModel { balanced: self.balanced.drop_last(), ..self };
            if self.mode is Some && (last.kind is Local || last.kind is Global) {
                popped.with_current(
                    match popped.innermost() {
                        Some(BalancedItemKind::Local) => CssModulesMode::Local,
                        Some(BalancedItemKind::Global) => CssModulesMode::Global,
                        _ => CssModulesMode::Unset,
                    },
                ).emit(
                    DependencyModel::Replace {
                        content: Seq::empty(),
                        range: Range { start, end },
                    },
                )
            } else {
                match self.scope {
                    ScopeModel::InAtImport(import) => {
                        let inside = src.subrange(last.range.end as int, end - 1);
                        let whole = Range { start: last.range.start, end };
                        if last.kind is Url && !(import.supports is InSupports) {
                            popped.with_scope(
                                ScopeModel::InAtImport(
                                    ImportModel { url_range: Some(whole), ..import },
                                ),
                            )
                        } else if last.kind is Layer && !(import.supports is InSupports) {
                            popped.with_scope(
                                ScopeModel::InAtImport(
                                    ImportModel {
                                        layer: LayerModel::EndLayer { value: inside, range: whole },
                                        ..import
                                    },
                                ),
                            )
                        } else if last.kind is Supports {
                            popped.with_scope(
                                ScopeModel::InAtImport(
                                    ImportModel {
                                        supports: SupportsModel::EndSupports {
                                            value: inside,
                                            range: whole,
                                        },
                                        ..import
                                    },
                                ),
                            )
                        } else {
                            popped
                        }
                    },
                    _ => popped,
                }
            }
        }
    }

    /// What follows a custom property name in a block, read from `pos`:
    /// the `:` and the value up to its `;` or the `}`, or a warning.
    pub open spec fn local_var_decl(self, src: Seq<u8>, pos: int, start: Pos, end: Pos)
        -> Outcome {
        let here = trivia_end(src, pos);
        if here >= src.len() {
            self.stop(here)
        } else if src[here] != C_COLON {
            let e = char_end(src, here);
            self.warn(
                Warning::Unexpected { unexpected: span(here, e), range: span(start as int, e) },
            ).done(here)
        } else {
            let vs = trivia_end(src, here + 1);
            let ve = value_end(src, vs);
            if ve >= src.len() {
                self.stop(ve)
            } else {
                self.emit(
                    DependencyModel::LocalVarDecl {
                        name_range: Range { start, end },
                        name: src.subrange(start + 2, end as int),
                        value: src.subrange(vs, ve),
                    },
                ).done(after_value(src, ve))
            }
        }
    }

    pub open spec fn on_ident(self, src: Seq<u8>, start: Pos, end: Pos) -> Outcome {
        match self.scope {
            ScopeModel::InBlock => {
                if self.is_local() && end - start >= 2 && src[start as int] == C_HYPHEN_MINUS
                    && src[start + 1] == C_HYPHEN_MINUS {
                    self.local_var_decl(src, end as int, start, end)
                } else {
                    self.done(end as int)
                }
            },
            ScopeModel::InAtImport(import) => {
                if lower(src.subrange(start as int, end as int)) == "layer".spec_bytes() {
                    self.with_scope(
                        ScopeModel::InAtImport(
                            ImportModel {
                                layer: LayerModel::EndLayer {
                                    value: Seq::empty(),
                                    range: Range { start, end },
                                },
                                ..import
                            },
                        ),
                    ).done(end as int)
                } else {
                    self.done(end as int)
                }
            },
            _ => self.done(end as int),
        }
    }

    /// A class or an id: a local name where names are local.
    pub open spec fn on_name(self, src: Seq<u8>, start: Pos, end: Pos) -> StateModel {
        if self.is_local() {
            self.emit(
                DependencyModel::LocalIdent {
                    name: src.subrange(start + 1, end as int),
                    range: span(start + 1, end as int),
                },
            )
        } else {
            self
        }
    }

    pub open spec fn on_left_curly_bracket(self) -> StateModel {
        match self.scope {
            ScopeModel::TopLevel => StateModel {
                allow_import_at_rule: false,
                scope: ScopeModel::InBlock,
                block_nesting_level: 1,
                ..self
            },
            ScopeModel::InBlock => StateModel {
                block_nesting_level: self.block_nesting_level + 1,
                ..self
            },
            _ => self,
        }
    }

    pub open spec fn on_right_curly_bracket(self) -> StateModel {
        match self.scope {
            ScopeModel::InBlock => StateModel {
                block_nesting_level: (self.block_nesting_level - 1) as nat,
                scope: if self.block_nesting_level == 1 {
                    ScopeModel::TopLevel
                } else {
                    ScopeModel::InBlock
                },
                ..self
            },
            _ => self,
        }
    }

    pub open spec fn on_pseudo_function(self, src: Seq<u8>, start: Pos, end: Pos) -> StateModel {
        let name = lower(src.subrange(start as int, end - 1));
        let pushed = self.push_balanced(classify(name), start, end);
        let erase = DependencyModel::Replace {
            content: Seq::empty(),
            range: Range { start, end },
        };
        if self.mode is None {
            pushed
        } else if name == ":global".spec_bytes() {
            pushed.with_current(CssModulesMode::Global).emit(erase)
        } else if name == ":local".spec_bytes() {
            pushed.with_current(CssModulesMode::Local).emit(erase)
        } else {
            pushed
        }
    }

    /// The entries of an `:export` block from `pos` on, up to its `}`.
    pub open spec fn export_entries(self, src: Seq<u8>, pos: int) -> Outcome
        decreases src.len() - pos,
    {
        if pos < 0 || pos >= src.len() {
            self.stop(pos)
        } else if src[pos] == C_RIGHT_CURLY {
            self.done(pos + 1)
        } else {
            let ps = trivia_end(src, pos);
            let pe = prop_end(src, ps);
            let there = trivia_end(src, pe);
            if pe >= src.len() || there >= src.len() {
                self.stop(src.len() as int)
            } else if src[there] != C_COLON {
                let e = char_end(src, there);
                self.warn(
                    Warning::Unexpected { unexpected: span(there, e), range: span(ps, e) },
                ).done(there)
            } else {
                let vs = trivia_end(src, there + 1);
                let ve = value_end(src, vs);
                if ve >= src.len() {
                    self.stop(ve)
                } else {
                    proof {
                        lemma_trivia_end(src, pos);
                        lemma_prop_end(src, ps);
                        lemma_trivia_end(src, pe);
                        lemma_trivia_end(src, there + 1);
                        lemma_value_end(src, vs);
                        lemma_trivia_end(src, ve + 1);
                    }
                    self.emit(
                        DependencyModel::ICSSExport {
                            prop: src.subrange(ps, trim_end_pos(src, ps, pe)),
                            value: src.subrange(vs, trim_end_pos(src, vs, ve)),
                        },
                    ).export_entries(src, after_value(src, ve))
                }
            }
        }
    }

    /// An `:export` block, read from `pos` after the `:export`.
    pub open spec fn icss_export(self, src: Seq<u8>, pos: int, start: Pos) -> Outcome {
        let here = trivia_end(src, pos);
        if here >= src.len() {
            self.stop(here)
        } else if src[here] != C_LEFT_CURLY {
            let e = char_end(src, here);
            self.warn(
                Warning::Unexpected { unexpected: span(here, e), range: span(start as int, e) },
            ).done(here)
        } else {
            self.export_entries(src, trivia_end(src, here + 1))
        }
    }

    pub open spec fn on_pseudo_class(self, src: Seq<u8>, start: Pos, end: Pos) -> Outcome {
        let name = lower(src.subrange(start as int, end as int));
        if self.mode is None {
            self.done(end as int)
        } else if name == ":global".spec_bytes() || name == ":local".spec_bytes() {
            let end2 = trivia_end(src, end as int);
            let from = trim_start_pos(src, end as int, end2);
            self.emit(
                DependencyModel::Replace {
                    content: src.subrange(from, trim_end_pos(src, from, end2)),
                    range: span(start as int, end2),
                },
            ).with_current(
                if name == ":global".spec_bytes() {
                    CssModulesMode::Global
                } else {
                    CssModulesMode::Local
                },
            ).done(end2)
        } else if self.scope is TopLevel && name == ":export".spec_bytes() {
            let read = self.icss_export(src, end as int, start);
            if read.done {
                read.state.emit(
                    DependencyModel::Replace {
                        content: Seq::empty(),
                        range: span(start as int, read.pos),
                    },
                ).done(read.pos)
            } else {
                read
            }
        } else {
            self.done(end as int)
        }
    }

    pub open spec fn on_comma(self) -> StateModel {
        self.with_current(CssModulesMode::Unset)
    }

    /// What the token `t`, which starts at `start`, makes of the state.
    #[verifier::opaque]
    pub open spec fn on_token(self, src: Seq<u8>, start: Pos, t: TokenModel) -> Outcome {
        let end = t.end as usize;
        match t.kind {
            TokenKind::Url => self.on_url(
                src,
                start,
                end,
                t.content_start as usize,
                t.content_end as usize,
            ).done(t.end),
            TokenKind::Function => self.on_function(src, start, end),
            TokenKind::Ident => self.on_ident(src, start, end),
            TokenKind::String => self.on_string(src, start, end).done(t.end),
            TokenKind::Id => self.on_name(src, start, end).done(t.end),
            TokenKind::Class => self.on_name(src, start, end).done(t.end),
            TokenKind::LeftParenthesis => self.on_left_parenthesis(start, end).done(t.end),
            TokenKind::RightParenthesis => self.on_right_parenthesis(src, start, end).done(
                t.end,
            ),
            TokenKind::Comma => self.on_comma().done(t.end),
            TokenKind::PseudoFunction => self.on_pseudo_function(src, start, end).done(t.end),
            TokenKind::PseudoClass => self.on_pseudo_class(src, start, end),
            TokenKind::Semicolon => self.on_semicolon(src, start, end).done(t.end),
            TokenKind::AtKeyword => self.on_at_keyword(src, start, end).done(t.end),
            TokenKind::LeftCurlyBracket => self.on_left_curly_bracket().done(t.end),
            TokenKind::RightCurlyBracket => self.on_right_curly_bracket().done(t.end),
            TokenKind::Other => self.done(t.end),
            TokenKind::Unterminated => self.stop(t.end),
        }
    }

    /// Whether selectors are expected at `start`, as far as the token
    /// there depends on it.
    pub open spec fn selector_at(self, src: Seq<u8>, start: int) -> bool {
        if src[start] == C_NUMBER_SIGN || src[start] == C_FULL_STOP || src[start] == C_COLON {
            self.is_next_rule_prelude
        } else {
            true
        }
    }

    /// The pass from `pos` to the end of the source, or to where it
    /// stops. Every token moves the cursor forward and leaves it inside
    /// the source; the pass ends with a token that would not.
    pub open spec fn run(self, src: Seq<u8>, pos: int) -> Outcome
        decreases src.len() - pos,
    {
        let start = trivia_end(src, pos);
        if pos < 0 || start >= src.len() {
            self.done(start)
        } else {
            let t = token_at(src, start, self.selector_at(src, start));
            let after = self.on_token(src, start as usize, t);
            if after.done && pos < after.pos <= src.len() {
                after.state.run(src, after.pos)
            } else {
                after
            }
        }
    }
}

/// The state of the analysis once it has taken `event` in the state `s`,
/// where `event` holds the answer that the analysis gives in that state.
pub open spec fn answer(s: StateModel, src: Seq<u8>, event: Event) -> Option<StateModel> {
    match event {
        Event::Selector { at, answer } => if answer == Some(s.is_next_rule_prelude) {
            Some(s)
        } else {
            None
        },
        Event::Token { start, token, after, go_on } => {
            let taken = s.on_token(src, start as usize, token);
            if after == taken.pos && go_on == taken.done {
                Some(taken.state)
            } else {
                None
            }
        },
    }
}

/// The state of the analysis once it has taken `events` one after the
/// other, from the state `s` on, where each holds the answer that the
/// analysis gives.
pub open spec fn answered(s: StateModel, src: Seq<u8>, events: Seq<Event>) -> Option<StateModel>
    decreases events.len(),
{
    if events.len() == 0 {
        Some(s)
    } else {
        match answer(s, src, events[0]) {
            Some(next) => answered(next, src, events.drop_first()),
            None => None,
        }
    }
}

/// What the analysis finds in the source `src`: the state at the end of
/// the pass, with all dependencies and warnings. With `mode` CSS Modules
/// are on.
pub open spec fn analyze(src: Seq<u8>, mode: Option<ModeModel>) -> StateModel {
    StateModel::initial(mode).run(src, 0).state
}

} // verus!
