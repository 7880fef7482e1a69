use css_module_lexer::{collect_dependencies, CssModulesModeData, Dependency, Range, Warning};

const SHEETS: [&str; 6] = [
    "@import url(a.css) layer(b) supports(c) screen;\n@IMPORT 'd.css';\n.e :global(.f) :local .g, #h { --i: url(j.png); k: var(--i) url(l.png) image-set('m.png' 1x) }\n:export { n: o; p: q }\n",
    "@import url(a) url(b); @import layer(x) 'c'; @import; @namespace d; .e {} @import 'f';",
    ".a { b: var(c); --d e; } :export f :export { g } :local(.h",
    ":global(:local(.a) .b) #c :local /* d */ .e { f: var( --g ) }",
    "\u{e9} .\u{e9}\u{1F600} { --\u{fc}: '\u{e4}'; a: var(--\u{fc}) url(\u{f6}.png) } :export { \u{e5}: \u{e6} }",
    ".a { b: url(c",
];

fn modes() -> [Option<CssModulesModeData>; 3] {
    [
        None,
        Some(CssModulesModeData::new(true)),
        Some(CssModulesModeData::new(false)),
    ]
}

fn spans(dependency: &Dependency) -> Vec<Range> {
    match dependency {
        Dependency::Url { range, .. }
        | Dependency::Import { range, .. }
        | Dependency::Replace { range, .. }
        | Dependency::LocalIdent { range, .. }
        | Dependency::LocalVar { range, .. } => vec![*range],
        Dependency::LocalVarDecl { name_range, .. } => vec![*name_range],
        Dependency::ICSSExport { .. } => vec![],
    }
}

fn rewritten(dependency: &Dependency) -> Option<Range> {
    match dependency {
        Dependency::Import { .. } => None,
        other => spans(other).first().copied(),
    }
}

fn warning_spans(warning: &Warning) -> Vec<Range> {
    match warning {
        Warning::Unexpected { unexpected, range } => vec![*unexpected, *range],
        Warning::ExpectedBefore {
            should_after,
            range,
        } => vec![*should_after, *range],
        Warning::DuplicateUrl { range }
        | Warning::NamespaceNotSupportedInBundledCss { range }
        | Warning::NotPrecededAtImport { range }
        | Warning::ExpectedUrl { range } => vec![*range],
    }
}

#[test]
fn every_span_lies_inside_the_source() {
    let mut seen = 0;
    for source in SHEETS {
        for mode in modes() {
            let found = collect_dependencies(source, mode);
            let all = found
                .dependencies
                .iter()
                .flat_map(spans)
                .chain(found.warnings.iter().flat_map(warning_spans));
            for range in all {
                assert!(range.start <= range.end && range.end <= source.len());
                assert!(source.is_char_boundary(range.start));
                assert!(source.is_char_boundary(range.end));
                seen += 1;
            }
        }
    }
    assert!(seen > 50);
}

#[test]
fn imports_run_from_at_import_to_the_semicolon() {
    let mut seen = 0;
    for source in SHEETS {
        for mode in modes() {
            for dependency in collect_dependencies(source, mode).dependencies {
                if let Dependency::Import { range, .. } = dependency {
                    let text = &source[range.start..range.end];
                    assert!(text[..7].eq_ignore_ascii_case("@import"));
                    assert!(text.ends_with(';'));
                    seen += 1;
                }
            }
        }
    }
    assert_eq!(seen, 6);
}

#[test]
fn rewritten_spans_come_in_order_and_do_not_overlap() {
    let mut seen = 0;
    for source in SHEETS {
        for mode in modes() {
            let found = collect_dependencies(source, mode);
            let spans: Vec<Range> = found.dependencies.iter().filter_map(rewritten).collect();
            for pair in spans.windows(2) {
                assert!(pair[0].end <= pair[1].start, "{source}");
                seen += 1;
            }
        }
    }
    assert!(seen > 30);
}

#[test]
fn modules_off_gives_urls_and_imports_only() {
    for source in SHEETS {
        for dependency in collect_dependencies(source, None).dependencies {
            assert!(matches!(
                dependency,
                Dependency::Url { .. } | Dependency::Import { .. }
            ));
        }
    }
}

fn erase(source: &str, mode: Option<CssModulesModeData>) -> String {
    let mut text = source.to_string();
    let found = collect_dependencies(source, mode);
    for dependency in found.dependencies.iter().rev() {
        if let Dependency::Replace { content, range } = dependency {
            text.replace_range(range.start..range.end, content);
        }
    }
    text
}

#[test]
fn locality_syntax_is_erased() {
    let local = Some(CssModulesModeData::new(true));
    assert_eq!(
        erase(".a :global(.b) :local .c, :GLOBAL .d {}", local),
        ".a .b .c, .d {}"
    );
    assert_eq!(
        erase(":global(:local(.a) .b) #c :local /* d */ .e {}", local),
        ".a .b #c /* d */.e {}"
    );
    assert_eq!(
        erase(":export { a: b } .c {} :export{}", local),
        " .c {} "
    );
    assert_eq!(
        erase(".a :global(.b) :local .c", None),
        ".a :global(.b) :local .c"
    );
}

#[test]
fn a_rewritten_sheet_asks_for_no_more() {
    let local = Some(CssModulesModeData::new(true));
    for source in SHEETS {
        let once = erase(source, local);
        for dependency in collect_dependencies(&once, None).dependencies {
            assert!(matches!(
                dependency,
                Dependency::Url { .. } | Dependency::Import { .. }
            ));
        }
    }
}
