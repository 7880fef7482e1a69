//! The dependency analysis: a visitor that follows `@import` rules, URLs
//! and the locality of names under CSS Modules, and collects what a bundler
//! has to rewrite, with warnings for what is malformed.

use crate::chars::C_ASTERISK;
use crate::chars::C_COLON;
use crate::chars::C_HYPHEN_MINUS;
use crate::chars::C_LEFT_CURLY;
use crate::chars::C_RIGHT_CURLY;
use crate::chars::C_RIGHT_PARENTHESIS;
use crate::chars::C_SEMICOLON;
use crate::chars::C_SOLIDUS;
use crate::order::state_ok;
use crate::lexer::char_end;
use crate::lexer::is_pass;
use crate::lexer::takes_all;
use crate::model::Outcome;
use crate::steps::lemma_answered;
use crate::steps::lemma_pass_is_run;
use crate::lexer::Event;
use crate::lexer::Lexer;
use crate::lexer::Pos;
use crate::lexer::Visitor;
use crate::laws::dependency_within;
use crate::laws::law_import_delimited;
use crate::laws::law_modules_off;
use crate::laws::law_ranges_within;
use crate::laws::law_rewritten_spans_disjoint;
use crate::model::after_value;
use crate::model::answer;
use crate::model::analyze;
use crate::order::delimits_import;
use crate::order::from_modules;
use crate::order::in_order;
use crate::order::warning_ok;
use crate::model::classify;
use crate::model::lemma_prop_end;
use crate::model::lemma_value_end;
use crate::model::media;
use crate::model::prop_end;
use crate::model::span;
use crate::model::value_end;
use crate::model::DependencyModel;
use crate::model::ImportModel;
use crate::model::LayerModel;
use crate::model::ModeModel;
use crate::model::ScopeModel;
use crate::model::StateModel;
use crate::model::SupportsModel;
use crate::scan::is_boundary;
use crate::scan::lemma_boundary_after_ascii;
use crate::scan::lemma_ident_end;
use crate::scan::lemma_trivia_end;
use crate::scan::lemma_trivia_end_boundary;
use crate::scan::lemma_white_space_end;
use crate::scan::skip_trivia;
use crate::scan::trivia_end;
use crate::steps::lemma_char_end;
use crate::steps::lemma_on_at_keyword;
use crate::steps::lemma_on_comma;
use crate::steps::lemma_on_curly_bracket;
use crate::steps::lemma_on_function;
use crate::steps::lemma_on_ident;
use crate::steps::lemma_on_left_parenthesis;
use crate::steps::lemma_on_name;
use crate::steps::lemma_on_pseudo_class;
use crate::steps::lemma_on_pseudo_function;
use crate::steps::lemma_on_right_parenthesis;
use crate::steps::lemma_on_semicolon;
use crate::steps::lemma_on_string;
use crate::steps::lemma_on_url;
use crate::steps::lemma_quote_boundary;
use crate::text::bytes_eq;
use crate::text::eq_ignore_ascii_case;
use crate::text::lemma_trim_end_pos;
use crate::text::lemma_empty_text;
use crate::text::lower;
use crate::text::trim_end;
use crate::text::trim_start;
use crate::token::plain;
use crate::token::TokenKind;
use crate::token::TokenModel;
use vstd::prelude::*;
use vstd::string::StringSliceAdditionalSpecFns;
use vstd::utf8::valid_utf8;

verus! {

/// A half-open span `[start, end)` of byte offsets into the source text.
#[derive(Debug, Clone, Copy, PartialEq, Eq, Hash, Structural)]
pub struct Range {
    pub start: Pos,
    pub end: Pos,
}

impl Range {
    pub fn new(start: Pos, end: Pos) -> (r: Self)
        ensures
            r == (Range { start, end }),
    {
        Self { start, end }
    }

    /// The span is well formed and lies inside a text of `len` bytes.
    pub open spec fn within(&self, len: int) -> bool {
        self.start <= self.end <= len
    }
}

/// Locality of a name under CSS Modules.
#[derive(Debug, Clone, Copy, PartialEq, Eq, Structural)]
pub enum CssModulesMode {
    Local,
    Global,
    Unset,
}

/// The locality that is in force: the default of the whole pass, and what
/// the innermost `:local` or `:global` has set.
#[derive(Debug, Clone, Copy)]
pub struct CssModulesModeData {
    default: CssModulesMode,
    current: CssModulesMode,
}

impl View for CssModulesModeData {
    type V = ModeModel;

    closed spec fn view(&self) -> ModeModel {
        ModeModel { default: self.default, current: self.current }
    }
}

impl CssModulesModeData {
    pub fn new(local: bool) -> (r: Self)
        ensures
            r@ == (ModeModel {
                default: if local {
                    CssModulesMode::Local
                } else {
                    CssModulesMode::Global
                },
                current: CssModulesMode::Unset,
            }),
    {
        Self {
            default: if local {
                CssModulesMode::Local
            } else {
                CssModulesMode::Global
            },
            current: CssModulesMode::Unset,
        }
    }

    pub fn is_local_mode(&self) -> (r: bool)
        ensures
            r == self@.is_local(),
    {
        match self.current {
            CssModulesMode::Local => true,
            CssModulesMode::Global => false,
            CssModulesMode::Unset => match self.default {
                CssModulesMode::Local => true,
                CssModulesMode::Global => false,
                CssModulesMode::Unset => false,
            },
        }
    }

    pub fn set_local(&mut self)
        ensures
            final(self)@ == old(self)@.set(CssModulesMode::Local),
    {
        self.current = CssModulesMode::Local;
    }

    pub fn set_global(&mut self)
        ensures
            final(self)@ == old(self)@.set(CssModulesMode::Global),
    {
        self.current = CssModulesMode::Global;
    }

    pub fn set_none(&mut self)
        ensures
            final(self)@ == old(self)@.set(CssModulesMode::Unset),
    {
        self.current = CssModulesMode::Unset;
    }
}

#[derive(Debug, Clone, Copy, PartialEq, Eq, Hash, Structural)]
pub enum UrlRangeKind {
    Function,
    String,
}

/// The bytes of a text that may be absent.
pub open spec fn opt_bytes(text: Option<&str>) -> Option<Seq<u8>> {
    match text {
        Some(t) => Some(t.spec_bytes()),
        None => None,
    }
}

#[derive(Debug, Clone, Copy, PartialEq, Eq, Hash)]
pub enum Dependency<'s> {
    Url { request: &'s str, range: Range, kind: UrlRangeKind },
    Import {
        request: &'s str,
        range: Range,
        layer: Option<&'s str>,
        supports: Option<&'s str>,
        media: Option<&'s str>,
    },
    Replace { content: &'s str, range: Range },
    LocalIdent { name: &'s str, range: Range },
    LocalVar { name: &'s str, range: Range },
    LocalVarDecl { name_range: Range, name: &'s str, value: &'s str },
    ICSSExport { prop: &'s str, value: &'s str },
}

impl<'s> View for Dependency<'s> {
    type V = DependencyModel;

    open spec fn view(&self) -> DependencyModel {
        match *self {
            Dependency::Url { request, range, kind } => DependencyModel::Url {
                request: request.spec_bytes(),
                range,
                kind,
            },
            Dependency::Import { request, range, layer, supports, media } => {
                DependencyModel::Import {
                    request: request.spec_bytes(),
                    range,
                    layer: opt_bytes(layer),
                    supports: opt_bytes(supports),
                    media: opt_bytes(media),
                }
            },
            Dependency::Replace { content, range } => DependencyModel::Replace {
                content: content.spec_bytes(),
                range,
            },
            Dependency::LocalIdent { name, range } => DependencyModel::LocalIdent {
                name: name.spec_bytes(),
                range,
            },
            Dependency::LocalVar { name, range } => DependencyModel::LocalVar {
                name: name.spec_bytes(),
                range,
            },
            Dependency::LocalVarDecl { name_range, name, value } => {
                DependencyModel::LocalVarDecl {
                    name_range,
                    name: name.spec_bytes(),
                    value: value.spec_bytes(),
                }
            },
            Dependency::ICSSExport { prop, value } => DependencyModel::ICSSExport {
                prop: prop.spec_bytes(),
                value: value.spec_bytes(),
            },
        }
    }
}

/// The models of a sequence of dependencies, in the same order.
pub open spec fn models(deps: Seq<Dependency<'_>>) -> Seq<DependencyModel> {
    Seq::new(deps.len(), |i: int| deps[i]@)
}

#[derive(Debug, Clone, Copy, PartialEq, Eq, Structural)]
pub enum Warning {
    Unexpected { unexpected: Range, range: Range },
    DuplicateUrl { range: Range },
    NamespaceNotSupportedInBundledCss { range: Range },
    NotPrecededAtImport { range: Range },
    ExpectedUrl { range: Range },
    ExpectedBefore { should_after: Range, range: Range },
}

/// What opened a bracket that is still open.
#[derive(Debug, Clone, Copy, PartialEq, Eq, Structural)]
pub enum BalancedItemKind {
    Url,
    ImageSet,
    Layer,
    Supports,
    Local,
    Global,
    Other,
}

impl BalancedItemKind {
    /// The kind that the name of a function or pseudo function stands for.
    /// The name counts as it is written.
    pub fn new(name: &str) -> (r: Self)
        ensures
            r == classify(name.spec_bytes()),
    {
        let text = name.as_bytes();
        if bytes_eq(text, "url".as_bytes()) {
            Self::Url
        } else if bytes_eq(text, "image-set".as_bytes()) {
            Self::ImageSet
        } else if bytes_eq(text, "layer".as_bytes()) {
            Self::Layer
        } else if bytes_eq(text, "supports".as_bytes()) {
            Self::Supports
        } else if bytes_eq(text, ":local".as_bytes()) {
            Self::Local
        } else if bytes_eq(text, ":global".as_bytes()) {
            Self::Global
        } else {
            Self::Other
        }
    }

    /// The kind that the name in `[start, end)` of `text` stands for, in
    /// any case of letters.
    pub fn of_name(text: &[u8], start: Pos, end: Pos) -> (r: Self)
        requires
            start <= end <= text.len(),
        ensures
            r == classify(lower(text@.subrange(start as int, end as int))),
    {
        if eq_ignore_ascii_case(text, start, end, "url".as_bytes()) {
            Self::Url
        } else if eq_ignore_ascii_case(text, start, end, "image-set".as_bytes()) {
            Self::ImageSet
        } else if eq_ignore_ascii_case(text, start, end, "layer".as_bytes()) {
            Self::Layer
        } else if eq_ignore_ascii_case(text, start, end, "supports".as_bytes()) {
            Self::Supports
        } else if eq_ignore_ascii_case(text, start, end, ":local".as_bytes()) {
            Self::Local
        } else if eq_ignore_ascii_case(text, start, end, ":global".as_bytes()) {
            Self::Global
        } else {
            Self::Other
        }
    }
}

/// An open bracket: what opened it, and the span of the token that did.
#[derive(Debug, Clone, Copy, PartialEq, Eq, Structural)]
pub struct BalancedItem {
    pub kind: BalancedItemKind,
    pub range: Range,
}

impl BalancedItem {
    pub fn new(name: &str, start: Pos, end: Pos) -> (r: Self)
        ensures
            r == (BalancedItem {
                kind: classify(name.spec_bytes()),
                range: Range { start, end },
            }),
    {
        Self { kind: BalancedItemKind::new(name), range: Range::new(start, end) }
    }

    pub fn new_other(start: Pos, end: Pos) -> (r: Self)
        ensures
            r == (BalancedItem { kind: BalancedItemKind::Other, range: Range { start, end } }),
    {
        Self { kind: BalancedItemKind::Other, range: Range::new(start, end) }
    }
}

#[derive(Debug, Clone, Copy)]
pub enum ImportDataSupports<'s> {
    Absent,
    InSupports { start: Pos },
    EndSupports { value: &'s str, range: Range },
}

impl<'s> View for ImportDataSupports<'s> {
    type V = SupportsModel;

    open spec fn view(&self) -> SupportsModel {
        match *self {
            ImportDataSupports::Absent => SupportsModel::Absent,
            ImportDataSupports::InSupports { start } => SupportsModel::InSupports { start },
            ImportDataSupports::EndSupports { value, range } => SupportsModel::EndSupports {
                value: value.spec_bytes(),
                range,
            },
        }
    }
}

#[derive(Debug, Clone, Copy)]
pub enum ImportDataLayer<'s> {
    Absent,
    EndLayer { value: &'s str, range: Range },
}

impl<'s> View for ImportDataLayer<'s> {
    type V = LayerModel;

    open spec fn view(&self) -> LayerModel {
        match *self {
            ImportDataLayer::Absent => LayerModel::Absent,
            ImportDataLayer::EndLayer { value, range } => LayerModel::EndLayer {
                value: value.spec_bytes(),
                range,
            },
        }
    }
}

/// What is known of the `@import` rule that is being read.
#[derive(Debug, Clone, Copy)]
pub struct ImportData<'s> {
    pub start: Pos,
    pub url: Option<&'s str>,
    pub url_range: Option<Range>,
    pub supports: ImportDataSupports<'s>,
    pub layer: ImportDataLayer<'s>,
}

impl<'s> View for ImportData<'s> {
    type V = ImportModel;

    open spec fn view(&self) -> ImportModel {
        ImportModel {
            start: self.start,
            url: opt_bytes(self.url),
            url_range: self.url_range,
            supports: self.supports@,
            layer: self.layer@,
        }
    }
}

impl<'s> ImportData<'s> {
    pub fn new(start: Pos) -> (r: Self)
        ensures
            r@ == ImportModel::fresh(start),
    {
        Self {
            start,
            url: None,
            url_range: None,
            supports: ImportDataSupports::Absent,
            layer: ImportDataLayer::Absent,
        }
    }

    pub fn in_supports(&self) -> (r: bool)
        ensures
            r == (self@.supports is InSupports),
    {
        matches!(self.supports, ImportDataSupports::InSupports { .. })
    }

    pub fn layer_range(&self) -> (r: Option<&Range>)
        ensures
            r is Some <==> self@.layer_range() is Some,
            r is Some ==> *r->0 == self@.layer_range()->0,
    {
        match &self.layer {
            ImportDataLayer::EndLayer { range, .. } => Some(range),
            ImportDataLayer::Absent => None,
        }
    }

    pub fn supports_range(&self) -> (r: Option<&Range>)
        ensures
            r is Some <==> self@.supports_range() is Some,
            r is Some ==> *r->0 == self@.supports_range()->0,
    {
        match &self.supports {
            ImportDataSupports::EndSupports { range, .. } => Some(range),
            _ => None,
        }
    }
}

#[derive(Debug, Clone, Copy)]
pub enum Scope<'s> {
    TopLevel,
    InBlock,
    InAtImport(ImportData<'s>),
    AtImportInvalid,
    AtNamespaceInvalid,
}

impl<'s> View for Scope<'s> {
    type V = ScopeModel;

    open spec fn view(&self) -> ScopeModel {
        match *self {
            Scope::TopLevel => ScopeModel::TopLevel,
            Scope::InBlock => ScopeModel::InBlock,
            Scope::InAtImport(import) => ScopeModel::InAtImport(import@),
            Scope::AtImportInvalid => ScopeModel::AtImportInvalid,
            Scope::AtNamespaceInvalid => ScopeModel::AtNamespaceInvalid,
        }
    }
}

/// The model of a mode that may be absent.
pub open spec fn opt_mode(mode: Option<CssModulesModeData>) -> Option<ModeModel> {
    match mode {
        Some(m) => Some(m@),
        None => None,
    }
}

/// What a pass has found: the dependencies and the warnings, each in the
/// order of the source.
#[derive(Debug, Clone, PartialEq, Eq)]
pub struct Collection<'s> {
    pub dependencies: Vec<Dependency<'s>>,
    pub warnings: Vec<Warning>,
}

/// The visitor that finds the dependencies. It keeps what it finds.
pub struct LexDependencies<'s> {
    mode_data: Option<CssModulesModeData>,
    scope: Scope<'s>,
    block_nesting_level: usize,
    allow_import_at_rule: bool,
    balanced: Vec<BalancedItem>,
    is_next_rule_prelude: bool,
    dependencies: Vec<Dependency<'s>>,
    warnings: Vec<Warning>,
    read: Ghost<int>,
}

impl<'s> View for LexDependencies<'s> {
    type V = StateModel;

    closed spec fn view(&self) -> StateModel {
        StateModel {
            mode: opt_mode(self.mode_data),
            scope: self.scope@,
            block_nesting_level: self.block_nesting_level as nat,
            allow_import_at_rule: self.allow_import_at_rule,
            balanced: self.balanced@,
            is_next_rule_prelude: self.is_next_rule_prelude,
            dependencies: models(self.dependencies@),
            warnings: self.warnings@,
        }
    }
}

impl<'s> LexDependencies<'s> {
    /// The offset up to which the source has been read.
    pub closed spec fn read_up_to(&self) -> int {
        self.read@
    }

    /// A visitor at the start of a pass. With `mode_data` CSS Modules are
    /// on, without it they are off.
    pub fn new(mode_data: Option<CssModulesModeData>) -> (r: Self)
        ensures
            r@ == StateModel::initial(opt_mode(mode_data)),
            r.read_up_to() == 0,
    {
        let r = Self {
            mode_data,
            scope: Scope::TopLevel,
            block_nesting_level: 0,
            allow_import_at_rule: true,
            balanced: Vec::new(),
            is_next_rule_prelude: true,
            dependencies: Vec::new(),
            warnings: Vec::new(),
            read: Ghost(0),
        };
        assert(r@.dependencies =~= Seq::empty());
        assert(r@.balanced =~= Seq::empty());
        assert(r@.warnings =~= Seq::empty());
        r
    }

    /// The dependencies found so far.
    pub fn dependencies(&self) -> (r: &Vec<Dependency<'s>>)
        ensures
            models(r@) == self@.dependencies,
    {
        &self.dependencies
    }

    /// The warnings given so far.
    pub fn warnings(&self) -> (r: &Vec<Warning>)
        ensures
            r@ == self@.warnings,
    {
        &self.warnings
    }

    /// Ends the pass and hands out what was found.
    pub fn finish(self) -> (r: Collection<'s>)
        ensures
            models(r.dependencies@) == self@.dependencies,
            r.warnings@ == self@.warnings,
    {
        Collection { dependencies: self.dependencies, warnings: self.warnings }
    }

    fn emit(&mut self, d: Dependency<'s>)
        ensures
            final(self)@ == old(self)@.emit(d@),
            final(self).read_up_to() == old(self).read_up_to(),
    {
        self.dependencies.push(d);
        assert(models(self.dependencies@) =~= models(old(self).dependencies@).push(d@));
    }

    fn warn(&mut self, w: Warning)
        ensures
            final(self)@ == old(self)@.warn(w),
            final(self).read_up_to() == old(self).read_up_to(),
    {
        self.warnings.push(w);
    }

    fn set_scope(&mut self, scope: Scope<'s>)
        ensures
            final(self)@ == old(self)@.with_scope(scope@),
            final(self).read_up_to() == old(self).read_up_to(),
    {
        self.scope = scope;
    }

    fn set_current(&mut self, current: CssModulesMode)
        ensures
            final(self)@ == old(self)@.with_current(current),
            final(self).read_up_to() == old(self).read_up_to(),
    {
        if let Some(mut mode) = self.mode_data {
            match current {
                CssModulesMode::Local => mode.set_local(),
                CssModulesMode::Global => mode.set_global(),
                CssModulesMode::Unset => mode.set_none(),
            }
            self.mode_data = Some(mode);
        }
    }

    fn is_local(&self) -> (r: bool)
        ensures
            r == self@.is_local(),
    {
        match &self.mode_data {
            Some(mode) => mode.is_local_mode(),
            None => false,
        }
    }
}

/// After an ASCII byte the next character starts at once.
proof fn lemma_char_end_ascii(src: Seq<u8>, p: int)
    requires
        valid_utf8(src),
        0 <= p < src.len(),
        src[p] < 0x80,
    ensures
        char_end(src, p) == p + 1,
        is_boundary(src, p + 1),
{
    lemma_boundary_after_ascii(src, p);
    crate::lexer::lemma_continuation_end(src, p + 1);
}

impl<'s> LexDependencies<'s> {
    /// Whether what follows the cursor, after white space and comments, is
    /// nested syntax rather than a rule: neither a `{` nor the start of an
    /// ident. `None` where nothing follows.
    pub fn is_next_nested_syntax(lexer: &Lexer<'s>) -> (r: Option<bool>)
        ensures
            r == (if trivia_end(lexer.source(), lexer.position()) < lexer.source().len() {
                let c = lexer.source()[trivia_end(lexer.source(), lexer.position())];
                Some(c != C_LEFT_CURLY && !crate::chars::is_ident_start(c))
            } else {
                None
            }),
    {
        let text = lexer.bytes();
        let here: usize = lexer.cur_pos();
        proof {
            lemma_trivia_end(lexer.source(), here as int);
        }
        let next: usize = skip_trivia(text, here);
        if next < text.len() {
            let c: u8 = text[next];
            Some(c != C_LEFT_CURLY && !crate::chars::is_ident_start(c))
        } else {
            None
        }
    }

    /// The media query list between `start` and `end`.
    fn get_media(&self, lexer: &Lexer<'s>, start: Pos, end: Pos) -> (r: Option<&'s str>)
        requires
            is_boundary(lexer.source(), start as int),
            is_boundary(lexer.source(), end as int),
        ensures
            opt_bytes(r) == media(lexer.source(), start as int, end as int),
    {
        proof {
            lexer.lemma_source_valid();
            lemma_trivia_end(lexer.source(), start as int);
            lemma_trivia_end_boundary(lexer.source(), start as int);
        }
        let from: usize = skip_trivia(lexer.bytes(), start);
        if from < end {
            Some(lexer.text_of(from, end))
        } else {
            None
        }
    }

    /// Moves the cursor to the end of the property name it stands at.
    /// `None` where the source ends first.
    fn consume_icss_export_prop(&self, lexer: &mut Lexer<'s>) -> (r: Option<()>)
        ensures
            final(lexer).source() == old(lexer).source(),
            final(lexer).position() == prop_end(old(lexer).source(), old(lexer).position()),
            r is Some <==> final(lexer).position() < old(lexer).source().len(),
    {
        let src = lexer.bytes();
        let from: usize = lexer.cur_pos();
        let mut p: usize = from;
        loop
            invariant_except_break
                from <= p <= src.len(),
                prop_end(src@, p as int) == prop_end(src@, from as int),
            ensures
                from <= p <= src.len(),
                p == prop_end(src@, from as int),
                p < src.len() ==> src[p as int] < 0x80,
            decreases src.len() - p,
        {
            if p >= src.len() {
                break ;
            }
            let c: u8 = src[p];
            if c == C_COLON || c == C_RIGHT_CURLY || c == C_SEMICOLON {
                break ;
            }
            if c == C_SOLIDUS {
                if p + 1 >= src.len() {
                    p = src.len();
                    break ;
                }
                if src[p + 1] == C_ASTERISK {
                    break ;
                }
            }
            p += 1;
        }
        lexer.advance_to(p);
        if p < src.len() {
            Some(())
        } else {
            None
        }
    }

    /// Moves the cursor to the `}` or `;` that ends the value it stands
    /// at. `None` where the source ends first.
    fn consume_icss_export_value(&self, lexer: &mut Lexer<'s>) -> (r: Option<()>)
        ensures
            final(lexer).source() == old(lexer).source(),
            final(lexer).position() == value_end(old(lexer).source(), old(lexer).position()),
            r is Some <==> final(lexer).position() < old(lexer).source().len(),
    {
        let src = lexer.bytes();
        let from: usize = lexer.cur_pos();
        let mut p: usize = from;
        while p < src.len() && !(src[p] == C_RIGHT_CURLY || src[p] == C_SEMICOLON)
            invariant
                from <= p <= src.len(),
                value_end(src@, p as int) == value_end(src@, from as int),
            decreases src.len() - p,
        {
            p += 1;
        }
        lexer.advance_to(p);
        if p < src.len() {
            Some(())
        } else {
            None
        }
    }

    /// Moves the cursor past the `;` it stands at, if it does, and the
    /// white space and comments after it.
    fn consume_value_end(lexer: &mut Lexer<'s>)
        requires
            old(lexer).position() < old(lexer).source().len(),
        ensures
            final(lexer).source() == old(lexer).source(),
            final(lexer).position() == after_value(old(lexer).source(), old(lexer).position()),
    {
        proof {
            lexer.lemma_source_valid();
        }
        let at_semicolon: bool = match lexer.cur_byte() {
            Some(c) => c == C_SEMICOLON,
            None => false,
        };
        if at_semicolon {
            proof {
                lemma_char_end_ascii(lexer.source(), lexer.position());
            }
            lexer.consume();
            lexer.consume_white_space_and_comments();
        }
    }

    /// Reads an `:export` block: the cursor stands after `:export`, which
    /// starts at `start`.
    fn lex_icss_export(&mut self, lexer: &mut Lexer<'s>, start: Pos) -> (r: Option<()>)
        ensures
            final(lexer).source() == old(lexer).source(),
            final(self).read_up_to() == old(self).read_up_to(),
            final(self)@ == old(self)@.icss_export(
                old(lexer).source(),
                old(lexer).position(),
                start,
            ).state,
            final(lexer).position() == old(self)@.icss_export(
                old(lexer).source(),
                old(lexer).position(),
                start,
            ).pos,
            r is Some <==> old(self)@.icss_export(
                old(lexer).source(),
                old(lexer).position(),
                start,
            ).done,
    {
        let ghost src = lexer.source();
        let ghost goal = self@.icss_export(src, lexer.position(), start);
        proof {
            lexer.lemma_source_valid();
        }
        lexer.consume_white_space_and_comments();
        let c: u8 = match lexer.cur_byte() {
            Some(c) => c,
            None => {
                return None;
            },
        };
        if c != C_LEFT_CURLY {
            let here: usize = lexer.cur_pos();
            let next: usize = match lexer.peek_pos() {
                Some(next) => next,
                None => {
                    return None;
                },
            };
            self.warn(
                Warning::Unexpected {
                    unexpected: Range::new(here, next),
                    range: Range::new(start, next),
                },
            );
            return Some(());
        }
        proof {
            lemma_char_end_ascii(src, lexer.position());
        }
        lexer.consume();
        lexer.consume_white_space_and_comments();
        assert(goal == self@.export_entries(src, lexer.position()));
        let text = lexer.bytes();
        loop
            invariant_except_break
                lexer.source() == src,
                text@ == src,
                valid_utf8(src),
                self.read_up_to() == old(self).read_up_to(),
                goal == self@.export_entries(src, lexer.position()),
                src == old(lexer).source(),
                goal == old(self)@.icss_export(src, old(lexer).position(), start),
            ensures
                lexer.source() == src,
                self.read_up_to() == old(self).read_up_to(),
                0 <= lexer.position() < src.len(),
                src[lexer.position()] == C_RIGHT_CURLY,
                goal == self@.done(lexer.position() + 1),
            decreases src.len() - lexer.position(),
        {
            let ghost pos = lexer.position();
            let c: u8 = match lexer.cur_byte() {
                Some(c) => c,
                None => {
                    return None;
                },
            };
            if c == C_RIGHT_CURLY {
                break ;
            }
            lexer.consume_white_space_and_comments();
            let prop_start: usize = lexer.cur_pos();
            let found = self.consume_icss_export_prop(lexer);
            let prop_end: usize = lexer.cur_pos();
            proof {
                lemma_trivia_end(src, pos);
                lemma_prop_end(src, prop_start as int);
                lemma_trivia_end(src, prop_end as int);
            }
            lexer.consume_white_space_and_comments();
            if found.is_none() {
                return None;
            }
            let c: u8 = match lexer.cur_byte() {
                Some(c) => c,
                None => {
                    return None;
                },
            };
            if c != C_COLON {
                let here: usize = lexer.cur_pos();
                let next: usize = match lexer.peek_pos() {
                    Some(next) => next,
                    None => {
                        return None;
                    },
                };
                self.warn(
                    Warning::Unexpected {
                        unexpected: Range::new(here, next),
                        range: Range::new(prop_start, next),
                    },
                );
                return Some(());
            }
            proof {
                lemma_char_end_ascii(src, lexer.position());
                lemma_trivia_end(src, lexer.position() + 1);
            }
            lexer.consume();
            lexer.consume_white_space_and_comments();
            let value_start: usize = lexer.cur_pos();
            if self.consume_icss_export_value(lexer).is_none() {
                return None;
            }
            let value_end: usize = lexer.cur_pos();
            proof {
                lemma_value_end(src, value_start as int);
                lemma_trivia_end(src, value_end + 1);
                lemma_trim_end_pos(src, prop_start as int, prop_end as int);
                lemma_trim_end_pos(src, value_start as int, value_end as int);
            }
            Self::consume_value_end(lexer);
            let prop = lexer.text_of(prop_start, trim_end(text, prop_start, prop_end));
            let value = lexer.text_of(value_start, trim_end(text, value_start, value_end));
            self.emit(Dependency::ICSSExport { prop, value });
        }
        proof {
            lemma_char_end_ascii(src, lexer.position());
        }
        lexer.consume();
        Some(())
    }

    /// Reads what follows `var(`: the cursor stands after the `(`, and the
    /// function started at `start`.
    fn lex_local_var(&mut self, lexer: &mut Lexer<'s>, start: Pos) -> (r: Option<()>)
        requires
            old(lexer).source().len() <= usize::MAX,
        ensures
            final(lexer).source() == old(lexer).source(),
            final(self).read_up_to() == old(self).read_up_to(),
            final(self)@ == old(self)@.local_var(
                old(lexer).source(),
                old(lexer).position(),
                start,
            ).state,
            final(lexer).position() == old(self)@.local_var(
                old(lexer).source(),
                old(lexer).position(),
                start,
            ).pos,
            r is Some <==> old(self)@.local_var(
                old(lexer).source(),
                old(lexer).position(),
                start,
            ).done,
    {
        let ghost src = lexer.source();
        proof {
            lexer.lemma_source_valid();
        }
        lexer.consume_white_space_and_comments();
        let minus_start: usize = lexer.cur_pos();
        proof {
            lemma_char_end(src, minus_start as int);
        }
        let c: u8 = match lexer.cur_byte() {
            Some(c) => c,
            None => {
                return None;
            },
        };
        let double: bool = if c == C_HYPHEN_MINUS {
            match lexer.peek_byte() {
                Some(next) => next == C_HYPHEN_MINUS,
                None => {
                    return None;
                },
            }
        } else {
            false
        };
        if !double {
            let end: usize = match lexer.peek2_pos() {
                Some(end) => end,
                None => {
                    return None;
                },
            };
            self.warn(
                Warning::Unexpected {
                    unexpected: Range::new(minus_start, end),
                    range: Range::new(start, end),
                },
            );
            return Some(());
        }
        proof {
            lemma_char_end_ascii(src, minus_start as int);
            lemma_char_end_ascii(src, minus_start + 1);
            lemma_ident_end(src, minus_start as int);
            lemma_ident_end(src, minus_start + 1);
            lemma_ident_end(src, minus_start + 2);
        }
        lexer.consume_ident_sequence();
        let name_start: usize = minus_start + 2;
        let name_end: usize = lexer.cur_pos();
        lexer.consume_white_space_and_comments();
        let c: u8 = match lexer.cur_byte() {
            Some(c) => c,
            None => {
                return None;
            },
        };
        if c != C_RIGHT_PARENTHESIS {
            let here: usize = lexer.cur_pos();
            let next: usize = match lexer.peek_pos() {
                Some(next) => next,
                None => {
                    return None;
                },
            };
            self.warn(
                Warning::Unexpected {
                    unexpected: Range::new(here, next),
                    range: Range::new(name_start, next),
                },
            );
            return Some(());
        }
        let name = lexer.text_of(name_start, name_end);
        self.emit(Dependency::LocalVar { name, range: Range::new(minus_start, name_end) });
        Some(())
    }

    /// Reads what follows the custom property name `name` in a block: the
    /// cursor stands after the name, which is `[start, end)` with its `--`.
    fn lex_local_var_decl(
        &mut self,
        lexer: &mut Lexer<'s>,
        name: &'s str,
        start: Pos,
        end: Pos,
    ) -> (r: Option<()>)
        requires
            old(lexer).position() == end,
            start + 2 <= end <= old(lexer).source().len(),
            name.spec_bytes() == old(lexer).source().subrange(start + 2, end as int),
        ensures
            final(lexer).source() == old(lexer).source(),
            final(self).read_up_to() == old(self).read_up_to(),
            final(self)@ == old(self)@.local_var_decl(
                old(lexer).source(),
                end as int,
                start,
                end,
            ).state,
            final(lexer).position() == old(self)@.local_var_decl(
                old(lexer).source(),
                end as int,
                start,
                end,
            ).pos,
            r is Some <==> old(self)@.local_var_decl(
                old(lexer).source(),
                end as int,
                start,
                end,
            ).done,
    {
        let ghost src = lexer.source();
        proof {
            lexer.lemma_source_valid();
        }
        lexer.consume_white_space_and_comments();
        let c: u8 = match lexer.cur_byte() {
            Some(c) => c,
            None => {
                return None;
            },
        };
        if c != C_COLON {
            let here: usize = lexer.cur_pos();
            let next: usize = match lexer.peek_pos() {
                Some(next) => next,
                None => {
                    return None;
                },
            };
            self.warn(
                Warning::Unexpected {
                    unexpected: Range::new(here, next),
                    range: Range::new(start, next),
                },
            );
            return Some(());
        }
        proof {
            lemma_char_end_ascii(src, lexer.position());
        }
        lexer.consume();
        lexer.consume_white_space_and_comments();
        let value_start: usize = lexer.cur_pos();
        if self.consume_icss_export_value(lexer).is_none() {
            return None;
        }
        let value_end: usize = lexer.cur_pos();
        proof {
            lemma_value_end(src, value_start as int);
        }
        Self::consume_value_end(lexer);
        let value = lexer.text_of(value_start, value_end);
        self.emit(
            Dependency::LocalVarDecl { name_range: Range::new(start, end), name, value },
        );
        Some(())
    }

    /// Ends the `@import` of which `import` is known at the `;` in
    /// `[start, end)`.
    fn finish_import(&mut self, lexer: &Lexer<'s>, import: ImportData<'s>, start: Pos, end: Pos)
        requires
            old(self)@.scope == ScopeModel::InAtImport(import@),
            crate::order::import_ok(import@, lexer.source(), start as int),
            is_boundary(lexer.source(), start as int),
        ensures
            final(self).read_up_to() == old(self).read_up_to(),
            final(self)@ == old(self)@.finish_import(lexer.source(), import@, start, end),
    {
        self.set_scope(Scope::TopLevel);
        let whole = Range::new(import.start, end);
        let url = match import.url {
            Some(url) => url,
            None => {
                self.warn(Warning::ExpectedUrl { range: whole });
                return ;
            },
        };
        let url_range = match import.url_range {
            Some(url_range) => url_range,
            None => {
                self.warn(
                    Warning::Unexpected { unexpected: Range::new(start, end), range: whole },
                );
                return ;
            },
        };
        let layer = match import.layer {
            ImportDataLayer::Absent => None,
            ImportDataLayer::EndLayer { value, range } => {
                if url_range.start > range.start {
                    self.warn(Warning::ExpectedBefore { should_after: range, range: url_range });
                    return ;
                }
                Some(value)
            },
        };
        let supports = match import.supports {
            ImportDataSupports::Absent => None,
            ImportDataSupports::InSupports { start: supports_start } => {
                self.warn(
                    Warning::Unexpected {
                        unexpected: Range::new(start, end),
                        range: Range::new(supports_start, end),
                    },
                );
                None
            },
            ImportDataSupports::EndSupports { value, range } => {
                if url_range.start > range.start {
                    self.warn(Warning::ExpectedBefore { should_after: range, range: url_range });
                    return ;
                }
                Some(value)
            },
        };
        let mut last_end: usize = url_range.end;
        if let Some(layer_range) = import.layer_range() {
            last_end = layer_range.end;
            if let Some(supports_range) = import.supports_range() {
                if layer_range.start > supports_range.start {
                    self.warn(
                        Warning::ExpectedBefore {
                            should_after: *supports_range,
                            range: *layer_range,
                        },
                    );
                    return ;
                }
            }
        }
        if let Some(supports_range) = import.supports_range() {
            last_end = supports_range.end;
        }
        let media = self.get_media(lexer, last_end, start);
        self.emit(Dependency::Import { request: url, range: whole, layer, supports, media });
    }
}

impl<'s> Visitor<'s> for LexDependencies<'s> {
    /// The state is one that the analysis reaches on `src`.
    open spec fn inv(&self, src: Seq<u8>) -> bool {
        state_ok(self@, src, self.read_up_to())
    }

    open spec fn frontier(&self) -> int {
        self.read_up_to()
    }

    open spec fn takes(&self, src: Seq<u8>, event: Event, after: &Self) -> bool {
        answer(self@, src, event) == Some(after@)
    }

    /// Selectors are expected wherever the next rule is a prelude.
    fn is_selector(&mut self, lexer: &mut Lexer<'s>) -> (r: Option<bool>)
        ensures
            r == Some(old(self)@.is_next_rule_prelude),
            final(self)@ == old(self)@,
    {
        Some(self.is_next_rule_prelude)
    }

    /// A URL is the request of the `@import` that is being read, or a
    /// dependency of its own in a block.
    fn url(
        &mut self,
        lexer: &mut Lexer<'s>,
        start: Pos,
        end: Pos,
        content_start: Pos,
        content_end: Pos,
    ) -> (r: Option<()>)
        ensures
            r is Some,
            final(lexer).position() == old(lexer).position(),
            final(self)@ == old(self)@.on_url(
                old(lexer).source(),
                start,
                end,
                content_start,
                content_end,
            ),
    {
        let ghost src = lexer.source();
        let ghost before = self@;
        proof {
            reveal(StateModel::on_token);
            lexer.lemma_at_token(
                start,
                TokenModel {
                    kind: TokenKind::Url,
                    end: end as int,
                    content_start: content_start as int,
                    content_end: content_end as int,
                },
            );
            lemma_on_url(
                before,
                src,
                self.read_up_to(),
                start,
                end,
                content_start,
                content_end,
            );
        }
        match self.scope {
            Scope::InAtImport(import) => {
                if import.in_supports() {
                } else if import.url.is_some() {
                    self.warn(Warning::DuplicateUrl { range: Range::new(import.start, end) });
                    self.set_scope(Scope::TopLevel);
                } else {
                    let value = lexer.text_of(content_start, content_end);
                    self.set_scope(
                        Scope::InAtImport(
                            ImportData {
                                url: Some(value),
                                url_range: Some(Range::new(start, end)),
                                ..import
                            },
                        ),
                    );
                }
            },
            Scope::InBlock => {
                let value = lexer.text_of(content_start, content_end);
                self.emit(
                    Dependency::Url {
                        request: value,
                        range: Range::new(start, end),
                        kind: UrlRangeKind::Function,
                    },
                );
            },
            _ => {},
        }
        self.read = Ghost(lexer.position());
        Some(())
    }

    /// A string is the request of the `@import` that is being read, or of
    /// a `url(` or `image-set(` in a block.
    fn string(&mut self, lexer: &mut Lexer<'s>, start: Pos, end: Pos) -> (r: Option<()>)
        ensures
            r is Some,
            final(lexer).position() == old(lexer).position(),
            final(self)@ == old(self)@.on_string(old(lexer).source(), start, end),
    {
        let ghost src = lexer.source();
        let ghost before = self@;
        proof {
            reveal(StateModel::on_token);
            lexer.lemma_at_token(start, plain(TokenKind::String, end as int));
            lemma_on_string(before, src, self.read_up_to(), start, end);
            lemma_quote_boundary(src, start as int, end as int);
        }
        let inside_url: bool = self.innermost_is_url();
        match self.scope {
            Scope::InAtImport(import) => {
                if import.in_supports() || (!inside_url && import.url.is_some()) {
                } else if import.url.is_some() {
                    self.warn(Warning::DuplicateUrl { range: Range::new(import.start, end) });
                    self.set_scope(Scope::TopLevel);
                } else {
                    let value = lexer.text_of(start + 1, end - 1);
                    self.set_scope(
                        Scope::InAtImport(
                            ImportData {
                                url: Some(value),
                                url_range: if inside_url {
                                    import.url_range
                                } else {
                                    Some(Range::new(start, end))
                                },
                                ..import
                            },
                        ),
                    );
                }
            },
            Scope::InBlock => {
                let n: usize = self.balanced.len();
                if n > 0 {
                    let kind = match self.balanced[n - 1].kind {
                        BalancedItemKind::Url => Some(UrlRangeKind::String),
                        BalancedItemKind::ImageSet => Some(UrlRangeKind::Function),
                        _ => None,
                    };
                    if let Some(kind) = kind {
                        let value = lexer.text_of(start + 1, end - 1);
                        self.emit(
                            Dependency::Url { request: value, range: Range::new(start, end), kind },
                        );
                    }
                }
            },
            _ => {},
        }
        self.read = Ghost(lexer.position());
        Some(())
    }

    /// `@import` starts an import, if none comes too late; `@namespace` is refused.
    fn at_keyword(&mut self, lexer: &mut Lexer<'s>, start: Pos, end: Pos) -> (r: Option<()>)
        ensures
            r is Some,
            final(lexer).position() == old(lexer).position(),
            final(self)@ == old(self)@.on_at_keyword(old(lexer).source(), start, end),
    {
        let ghost src = lexer.source();
        let ghost before = self@;
        proof {
            reveal(StateModel::on_token);
            lexer.lemma_at_token(start, plain(TokenKind::AtKeyword, end as int));
            lemma_on_at_keyword(before, src, self.read_up_to(), start, end);
        }
        let text = lexer.bytes();
        if eq_ignore_ascii_case(text, start, end, "@namespace".as_bytes()) {
            self.set_scope(Scope::AtNamespaceInvalid);
            self.warn(
                Warning::NamespaceNotSupportedInBundledCss { range: Range::new(start, end) },
            );
        } else if eq_ignore_ascii_case(text, start, end, "@import".as_bytes()) {
            if !self.allow_import_at_rule {
                self.set_scope(Scope::AtImportInvalid);
                self.warn(Warning::NotPrecededAtImport { range: Range::new(start, end) });
            } else {
                self.set_scope(Scope::InAtImport(ImportData::new(start)));
            }
        } else if eq_ignore_ascii_case(text, start, end, "@media".as_bytes())
            || eq_ignore_ascii_case(text, start, end, "@supports".as_bytes())
            || eq_ignore_ascii_case(text, start, end, "@layer".as_bytes())
            || eq_ignore_ascii_case(text, start, end, "@container".as_bytes()) {
            self.is_next_rule_prelude = true;
        }
        self.read = Ghost(lexer.position());
        Some(())
    }

    /// A `;` ends the at-rule that is being read.
    fn semicolon(&mut self, lexer: &mut Lexer<'s>, start: Pos, end: Pos) -> (r: Option<()>)
        ensures
            r is Some,
            final(lexer).position() == old(lexer).position(),
            final(self)@ == old(self)@.on_semicolon(old(lexer).source(), start, end),
    {
        let ghost src = lexer.source();
        let ghost before = self@;
        proof {
            reveal(StateModel::on_token);
            lexer.lemma_at_token(start, plain(TokenKind::Semicolon, end as int));
            lemma_on_semicolon(before, src, self.read_up_to(), start, end);
        }
        match self.scope {
            Scope::InAtImport(import) => {
                proof {
                    crate::order::lemma_advance(before, src, self.read_up_to(), start as int);
                }
                self.finish_import(lexer, import, start, end);
            },
            Scope::AtImportInvalid | Scope::AtNamespaceInvalid => {
                self.set_scope(Scope::TopLevel);
            },
            _ => {},
        }
        self.read = Ghost(lexer.position());
        Some(())
    }

    /// A function opens a bracket; `var(` names a local variable where names are local.
    fn function(&mut self, lexer: &mut Lexer<'s>, start: Pos, end: Pos) -> (r: Option<()>)
        ensures
            final(self)@ == old(self)@.on_function(old(lexer).source(), start, end).state,
            final(lexer).position() == old(self)@.on_function(old(lexer).source(), start, end).pos,
            r is Some <==> old(self)@.on_function(old(lexer).source(), start, end).done,
    {
        let ghost src = lexer.source();
        let ghost before = self@;
        proof {
            reveal(StateModel::on_token);
            lexer.lemma_at_token(start, plain(TokenKind::Function, end as int));
            lemma_on_function(before, src, self.read_up_to(), start, end);
        }
        let text = lexer.bytes();
        let kind = BalancedItemKind::of_name(text, start, end - 1);
        self.balanced.push(BalancedItem { kind, range: Range::new(start, end) });
        if let Scope::InAtImport(import) = self.scope {
            if eq_ignore_ascii_case(text, start, end - 1, "supports".as_bytes()) {
                self.scope = Scope::InAtImport(
                    ImportData { supports: ImportDataSupports::InSupports { start }, ..import },
                );
            }
        }
        assert(self@ == before.open_function(src, start, end));
        let r = if self.is_local() && eq_ignore_ascii_case(
            text,
            start,
            end - 1,
            "var".as_bytes(),
        ) {
            self.lex_local_var(lexer, start)
        } else {
            Some(())
        };
        self.read = Ghost(lexer.position());
        r
    }

    /// A `(` opens a bracket.
    fn left_parenthesis(&mut self, lexer: &mut Lexer<'s>, start: Pos, end: Pos) -> (r: Option<()>)
        ensures
            r is Some,
            final(lexer).position() == old(lexer).position(),
            final(self)@ == old(self)@.on_left_parenthesis(start, end),
    {
        let ghost src = lexer.source();
        let ghost before = self@;
        proof {
            reveal(StateModel::on_token);
            lexer.lemma_at_token(start, plain(TokenKind::LeftParenthesis, end as int));
            lemma_on_left_parenthesis(before, src, self.read_up_to(), start, end);
        }
        self.balanced.push(BalancedItem::new_other(start, end));
        self.read = Ghost(lexer.position());
        Some(())
    }

    /// A `)` closes the innermost bracket: a `:local(` or `:global(`, or a
    /// part of the `@import` that is being read.
    fn right_parenthesis(&mut self, lexer: &mut Lexer<'s>, start: Pos, end: Pos) -> (r: Option<()>)
        ensures
            r is Some,
            final(lexer).position() == old(lexer).position(),
            final(self)@ == old(self)@.on_right_parenthesis(old(lexer).source(), start, end),
    {
        let ghost src = lexer.source();
        let ghost before = self@;
        proof {
            reveal(StateModel::on_token);
            lexer.lemma_at_token(start, plain(TokenKind::RightParenthesis, end as int));
            lemma_on_right_parenthesis(before, src, self.read_up_to(), start, end);
            lemma_empty_text();
        }
        if let Some(last) = self.balanced.pop() {
            assert(self.balanced@ == before.balanced.drop_last());
            assert(crate::order::closed_span(last.range, src, self.read_up_to()));
            if self.mode_data.is_some() && (matches!(last.kind, BalancedItemKind::Local)
                || matches!(last.kind, BalancedItemKind::Global)) {
                let n: usize = self.balanced.len();
                let current = if n > 0 {
                    match self.balanced[n - 1].kind {
                        BalancedItemKind::Local => CssModulesMode::Local,
                        BalancedItemKind::Global => CssModulesMode::Global,
                        _ => CssModulesMode::Unset,
                    }
                } else {
                    CssModulesMode::Unset
                };
                self.set_current(current);
                self.emit(Dependency::Replace { content: "", range: Range::new(start, end) });
            } else if let Scope::InAtImport(import) = self.scope {
                let not_in_supports: bool = !import.in_supports();
                let whole = Range::new(last.range.start, end);
                if matches!(last.kind, BalancedItemKind::Url) && not_in_supports {
                    self.set_scope(
                        Scope::InAtImport(ImportData { url_range: Some(whole), ..import }),
                    );
                } else if matches!(last.kind, BalancedItemKind::Layer) && not_in_supports {
                    let value = lexer.text_of(last.range.end, end - 1);
                    self.set_scope(
                        Scope::InAtImport(
                            ImportData {
                                layer: ImportDataLayer::EndLayer { value, range: whole },
                                ..import
                            },
                        ),
                    );
                } else if matches!(last.kind, BalancedItemKind::Supports) {
                    let value = lexer.text_of(last.range.end, end - 1);
                    self.set_scope(
                        Scope::InAtImport(
                            ImportData {
                                supports: ImportDataSupports::EndSupports { value, range: whole },
                                ..import
                            },
                        ),
                    );
                }
            }
        }
        self.read = Ghost(lexer.position());
        Some(())
    }

    /// An ident is a custom property that is declared, in a block where
    /// names are local, or the `layer` of an `@import`.
    fn ident(&mut self, lexer: &mut Lexer<'s>, start: Pos, end: Pos) -> (r: Option<()>)
        ensures
            final(self)@ == old(self)@.on_ident(old(lexer).source(), start, end).state,
            final(lexer).position() == old(self)@.on_ident(old(lexer).source(), start, end).pos,
            r is Some <==> old(self)@.on_ident(old(lexer).source(), start, end).done,
    {
        let ghost src = lexer.source();
        let ghost before = self@;
        proof {
            reveal(StateModel::on_token);
            lexer.lemma_at_token(start, plain(TokenKind::Ident, end as int));
            lemma_on_ident(before, src, self.read_up_to(), start, end);
            lemma_empty_text();
        }
        let text = lexer.bytes();
        let mut r: Option<()> = Some(());
        match self.scope {
            Scope::InBlock => {
                if self.is_local() && end - start >= 2 && text[start] == C_HYPHEN_MINUS
                    && text[start + 1] == C_HYPHEN_MINUS {
                    proof {
                        lemma_char_end_ascii(src, start as int);
                        lemma_char_end_ascii(src, start + 1);
                    }
                    let name = lexer.text_of(start + 2, end);
                    r = self.lex_local_var_decl(lexer, name, start, end);
                }
            },
            Scope::InAtImport(import) => {
                if eq_ignore_ascii_case(text, start, end, "layer".as_bytes()) {
                    self.set_scope(
                        Scope::InAtImport(
                            ImportData {
                                layer: ImportDataLayer::EndLayer {
                                    value: "",
                                    range: Range::new(start, end),
                                },
                                ..import
                            },
                        ),
                    );
                }
            },
            _ => {},
        }
        self.read = Ghost(lexer.position());
        r
    }

    /// A local name, where names are local.
    fn class(&mut self, lexer: &mut Lexer<'s>, start: Pos, end: Pos) -> (r: Option<()>)
        ensures
            r is Some,
            final(lexer).position() == old(lexer).position(),
            final(self)@ == old(self)@.on_name(old(lexer).source(), start, end),
    {
        let ghost src = lexer.source();
        let ghost before = self@;
        proof {
            reveal(StateModel::on_token);
            lexer.lemma_at_token(start, plain(TokenKind::Class, end as int));
            lemma_on_name(before, src, self.read_up_to(), start, end, TokenKind::Class);
        }
        if self.is_local() {
            proof {
                lemma_char_end_ascii(src, start as int);
            }
            let name = lexer.text_of(start + 1, end);
            self.emit(Dependency::LocalIdent { name, range: Range::new(start + 1, end) });
        }
        self.read = Ghost(lexer.position());
        Some(())
    }

    /// A local name, where names are local.
    fn id(&mut self, lexer: &mut Lexer<'s>, start: Pos, end: Pos) -> (r: Option<()>)
        ensures
            r is Some,
            final(lexer).position() == old(lexer).position(),
            final(self)@ == old(self)@.on_name(old(lexer).source(), start, end),
    {
        let ghost src = lexer.source();
        let ghost before = self@;
        proof {
            reveal(StateModel::on_token);
            lexer.lemma_at_token(start, plain(TokenKind::Id, end as int));
            lemma_on_name(before, src, self.read_up_to(), start, end, TokenKind::Id);
        }
        if self.is_local() {
            proof {
                lemma_char_end_ascii(src, start as int);
            }
            let name = lexer.text_of(start + 1, end);
            self.emit(Dependency::LocalIdent { name, range: Range::new(start + 1, end) });
        }
        self.read = Ghost(lexer.position());
        Some(())
    }

    /// A `{` opens a block.
    fn left_curly_bracket(&mut self, lexer: &mut Lexer<'s>, start: Pos, end: Pos) -> (r: Option<()>)
        ensures
            r is Some,
            final(lexer).position() == old(lexer).position(),
            final(self)@ == old(self)@.on_left_curly_bracket(),
    {
        let ghost src = lexer.source();
        let ghost before = self@;
        proof {
            reveal(StateModel::on_token);
            lexer.lemma_at_token(start, plain(TokenKind::LeftCurlyBracket, end as int));
            lemma_on_curly_bracket(before, src, self.read_up_to(), start, end);
        }
        match self.scope {
            Scope::TopLevel => {
                self.allow_import_at_rule = false;
                self.scope = Scope::InBlock;
                self.block_nesting_level = 1;
            },
            Scope::InBlock => {
                self.block_nesting_level += 1;
            },
            _ => {},
        }
        self.read = Ghost(lexer.position());
        Some(())
    }

    /// A `}` closes a block.
    fn right_curly_bracket(&mut self, lexer: &mut Lexer<'s>, start: Pos, end: Pos) -> (r: Option<
        (),
    >)
        ensures
            r is Some,
            final(lexer).position() == old(lexer).position(),
            final(self)@ == old(self)@.on_right_curly_bracket(),
    {
        let ghost src = lexer.source();
        let ghost before = self@;
        proof {
            reveal(StateModel::on_token);
            lexer.lemma_at_token(start, plain(TokenKind::RightCurlyBracket, end as int));
            lemma_on_curly_bracket(before, src, self.read_up_to(), start, end);
        }
        if matches!(self.scope, Scope::InBlock) {
            self.block_nesting_level -= 1;
            if self.block_nesting_level == 0 {
                self.scope = Scope::TopLevel;
            }
        }
        self.read = Ghost(lexer.position());
        Some(())
    }

    /// A pseudo function opens a bracket; `:local(` and `:global(` set the locality and are erased.
    fn pseudo_function(&mut self, lexer: &mut Lexer<'s>, start: Pos, end: Pos) -> (r: Option<()>)
        ensures
            r is Some,
            final(lexer).position() == old(lexer).position(),
            final(self)@ == old(self)@.on_pseudo_function(old(lexer).source(), start, end),
    {
        let ghost src = lexer.source();
        let ghost before = self@;
        proof {
            reveal(StateModel::on_token);
            lexer.lemma_at_token(start, plain(TokenKind::PseudoFunction, end as int));
            lemma_on_pseudo_function(before, src, self.read_up_to(), start, end);
            lemma_empty_text();
        }
        let text = lexer.bytes();
        let kind = BalancedItemKind::of_name(text, start, end - 1);
        self.balanced.push(BalancedItem { kind, range: Range::new(start, end) });
        if self.mode_data.is_some() {
            if eq_ignore_ascii_case(text, start, end - 1, ":global".as_bytes()) {
                self.set_current(CssModulesMode::Global);
                self.emit(Dependency::Replace { content: "", range: Range::new(start, end) });
            } else if eq_ignore_ascii_case(text, start, end - 1, ":local".as_bytes()) {
                self.set_current(CssModulesMode::Local);
                self.emit(Dependency::Replace { content: "", range: Range::new(start, end) });
            }
        }
        self.read = Ghost(lexer.position());
        Some(())
    }

    /// `:local` and `:global` set the locality and are erased; `:export`
    /// at the top level opens an export block.
    fn pseudo_class(&mut self, lexer: &mut Lexer<'s>, start: Pos, end: Pos) -> (r: Option<()>)
        ensures
            final(self)@ == old(self)@.on_pseudo_class(old(lexer).source(), start, end).state,
            final(lexer).position() == old(self)@.on_pseudo_class(
                old(lexer).source(),
                start,
                end,
            ).pos,
            r is Some <==> old(self)@.on_pseudo_class(old(lexer).source(), start, end).done,
    {
        let ghost src = lexer.source();
        let ghost before = self@;
        proof {
            reveal(StateModel::on_token);
            lexer.lemma_at_token(start, plain(TokenKind::PseudoClass, end as int));
            lemma_on_pseudo_class(before, src, self.read_up_to(), start, end);
            lemma_empty_text();
        }
        let text = lexer.bytes();
        let mut r: Option<()> = Some(());
        if self.mode_data.is_some() {
            let global: bool = eq_ignore_ascii_case(text, start, end, ":global".as_bytes());
            if global || eq_ignore_ascii_case(text, start, end, ":local".as_bytes()) {
                lexer.consume_white_space_and_comments();
                let end2: usize = lexer.cur_pos();
                let from: usize = trim_start(text, end, end2);
                proof {
                    lemma_white_space_end(src, end as int);
                    if from > end {
                        lemma_boundary_after_ascii(src, from - 1);
                    }
                    lemma_trim_end_pos(src, from as int, end2 as int);
                }
                let to: usize = trim_end(text, from, end2);
                let comments = lexer.text_of(from, to);
                self.emit(
                    Dependency::Replace { content: comments, range: Range::new(start, end2) },
                );
                self.set_current(
                    if global {
                        CssModulesMode::Global
                    } else {
                        CssModulesMode::Local
                    },
                );
            } else if matches!(self.scope, Scope::TopLevel) && eq_ignore_ascii_case(
                text,
                start,
                end,
                ":export".as_bytes(),
            ) {
                r = self.lex_icss_export(lexer, start);
                if r.is_some() {
                    let here: usize = lexer.cur_pos();
                    self.emit(Dependency::Replace { content: "", range: Range::new(start, here) });
                }
            }
        }
        self.read = Ghost(lexer.position());
        r
    }

    /// A `,` ends a selector: the locality goes back to the default.
    fn comma(&mut self, lexer: &mut Lexer<'s>, start: Pos, end: Pos) -> (r: Option<()>)
        ensures
            r is Some,
            final(lexer).position() == old(lexer).position(),
            final(self)@ == old(self)@.on_comma(),
    {
        let ghost src = lexer.source();
        let ghost before = self@;
        proof {
            reveal(StateModel::on_token);
            lexer.lemma_at_token(start, plain(TokenKind::Comma, end as int));
            lemma_on_comma(before, src, self.read_up_to(), start, end);
        }
        self.set_current(CssModulesMode::Unset);
        self.read = Ghost(lexer.position());
        Some(())
    }
}

impl<'s> LexDependencies<'s> {
    fn innermost_is_url(&self) -> (r: bool)
        ensures
            r == (self@.innermost() == Some(BalancedItemKind::Url)),
    {
        let n: usize = self.balanced.len();
        n > 0 && matches!(self.balanced[n - 1].kind, BalancedItemKind::Url)
    }

    /// A pass of the lexer with the analysis as its visitor is the pass of
    /// the analysis: where the lexer has told the events of a pass from
    /// `p` on, and the visitor has gone through `states` as it took them,
    /// the last of these states is that in which the pass of the analysis
    /// ends, from `p` on in the first of them; and both end alike.
    pub proof fn lemma_lexed(
        src: Seq<u8>,
        p: int,
        events: Seq<Event>,
        states: Seq<LexDependencies<'s>>,
        end: int,
        done: bool,
    )
        requires
            0 <= p <= src.len() <= usize::MAX,
            is_pass(src, p, events, end, done),
            takes_all(src, states, events),
        ensures
            states.first()@.run(src, p) == (Outcome { state: states.last()@, pos: end, done }),
    {
        let models = Seq::new(states.len(), |i: int| states[i]@);
        assert forall|i: int| 0 <= i < events.len() implies answer(
            #[trigger] models[i],
            src,
            events[i],
        ) == Some(models[i + 1]) by {
            assert(states[i].takes(src, events[i], &states[i + 1]));
        }
        lemma_answered(src, models, events);
        lemma_pass_is_run(models.first(), src, p, events, end, done);
    }
}

/// Finds the dependencies of the style sheet `source`. With `mode_data`
/// CSS Modules are on: the names that are local are reported, and the
/// syntax that says which are is to be erased.
///
/// Every span that is reported lies inside the source; the span of an
/// import runs from its `@import` to its `;`; the spans to rewrite come in
/// the order of the source and do not overlap; and with CSS Modules off
/// only URLs and imports are reported.
pub fn collect_dependencies<'s>(source: &'s str, mode_data: Option<CssModulesModeData>) -> (r:
    Collection<'s>)
    ensures
        models(r.dependencies@) == analyze(source.spec_bytes(), opt_mode(mode_data)).dependencies,
        r.warnings@ == analyze(source.spec_bytes(), opt_mode(mode_data)).warnings,
        forall|i: int|
            0 <= i < r.dependencies.len() ==> dependency_within(
                #[trigger] r.dependencies[i]@,
                source.spec_bytes().len() as int,
            ),
        forall|i: int|
            0 <= i < r.warnings.len() ==> warning_ok(
                #[trigger] r.warnings[i],
                source.spec_bytes().len() as int,
            ),
        forall|i: int|
            0 <= i < r.dependencies.len() ==> (
            #[trigger] r.dependencies[i]@ matches DependencyModel::Import { range, .. }
                ==> delimits_import(source.spec_bytes(), range)),
        forall|i: int, j: int|
            0 <= i < j < r.dependencies.len() ==> in_order(
                #[trigger] r.dependencies[i]@,
                #[trigger] r.dependencies[j]@,
            ),
        mode_data is None ==> forall|i: int|
            0 <= i < r.dependencies.len() ==> !from_modules(#[trigger] r.dependencies[i]@),
{
    let mut lexer = Lexer::from(source);
    let mut visitor = LexDependencies::new(mode_data);
    let ghost fresh = visitor;
    let passed = lexer.lex(&mut visitor);
    proof {
        let (events, states) = choose|events: Seq<Event>, states: Seq<LexDependencies<'s>>|
            {
                &&& #[trigger] is_pass(
                    lexer.source(),
                    0,
                    events,
                    lexer.position(),
                    passed is Some,
                )
                &&& #[trigger] takes_all(lexer.source(), states, events)
                &&& states.first() == fresh
                &&& states.last() == visitor
            };
        LexDependencies::lemma_lexed(
            source.spec_bytes(),
            0,
            events,
            states,
            lexer.position(),
            passed is Some,
        );
    }
    let r = visitor.finish();
    proof {
        let src = source.spec_bytes();
        let mode = opt_mode(mode_data);
        lexer.lemma_source_valid();
        law_ranges_within(src, mode);
        law_import_delimited(src, mode);
        law_rewritten_spans_disjoint(src, mode);
        let found = analyze(src, mode).dependencies;
        assert forall|i: int| 0 <= i < r.dependencies.len() implies #[trigger] r.dependencies[i]@
            == found[i] by {
            assert(models(r.dependencies@)[i] == r.dependencies[i]@);
        }
        if mode_data is None {
            law_modules_off(src);
        }
    }
    r
}

} // verus!
