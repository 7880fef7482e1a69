use css_module_lexer::{
    collect_dependencies, Collection, CssModulesModeData, Dependency, LexDependencies, Lexer,
    Range, UrlRangeKind, Warning,
};

fn assert_warning(lexer: &Lexer, warning: &Warning, range_content: &str) {
    match warning {
        Warning::Unexpected { range, .. }
        | Warning::DuplicateUrl { range }
        | Warning::NamespaceNotSupportedInBundledCss { range }
        | Warning::NotPrecededAtImport { range }
        | Warning::ExpectedUrl { range }
        | Warning::ExpectedBefore { range, .. } => {
            assert_eq!(lexer.slice(range.start, range.end).unwrap(), range_content);
        }
    }
}

fn assert_url_dependency(
    lexer: &Lexer,
    dependency: &Dependency,
    request: &str,
    kind: UrlRangeKind,
    range_content: &str,
) {
    let Dependency::Url {
        request: req,
        range,
        kind: k,
    } = dependency
    else {
        return assert!(false);
    };
    assert_eq!(*req, request);
    assert_eq!(*k, kind);
    assert_eq!(lexer.slice(range.start, range.end).unwrap(), range_content);
}

fn local() -> Option<CssModulesModeData> {
    Some(CssModulesModeData::new(true))
}

fn global() -> Option<CssModulesModeData> {
    Some(CssModulesModeData::new(false))
}

fn text<'s>(source: &'s str, range: &Range) -> &'s str {
    &source[range.start..range.end]
}

#[test]
fn url() {
    let mut v = LexDependencies::new(None);
    let mut l = Lexer::from(
        "body {\n    background: url(\n        https://example\\2f4a8f.com\\\n/image.png\n    )\n}\n",
    );
    l.lex(&mut v);
    let Collection {
        dependencies,
        warnings,
    } = v.finish();
    assert!(warnings.is_empty());
    assert_url_dependency(
        &l,
        &dependencies[0],
        "https://example\\2f4a8f.com\\\n/image.png",
        UrlRangeKind::Function,
        "url(\n        https://example\\2f4a8f.com\\\n/image.png\n    )",
    );
}

#[test]
fn duplicate_url() {
    let mut v = LexDependencies::new(None);
    let mut l = Lexer::from(
        "@import url(./a.css) url(./a.css);\n@import url(./a.css) url(\"./a.css\");\n@import url(\"./a.css\") url(./a.css);\n@import url(\"./a.css\") url(\"./a.css\");\n",
    );
    l.lex(&mut v);
    let Collection {
        dependencies,
        warnings,
    } = v.finish();
    assert!(dependencies.is_empty());
    assert_warning(&l, &warnings[0], "@import url(./a.css) url(./a.css)");
    assert_warning(&l, &warnings[1], "@import url(./a.css) url(\"./a.css\"");
    assert_warning(&l, &warnings[2], "@import url(\"./a.css\") url(./a.css)");
    assert_warning(&l, &warnings[3], "@import url(\"./a.css\") url(\"./a.css\"");
    assert_eq!(warnings.len(), 4);
    assert!(warnings
        .iter()
        .all(|w| matches!(w, Warning::DuplicateUrl { .. })));
}

#[test]
fn not_preceded_at_import() {
    let mut v = LexDependencies::new(None);
    let mut l = Lexer::from("body {}\n@import url(./a.css);\n");
    l.lex(&mut v);
    let Collection {
        dependencies,
        warnings,
    } = v.finish();
    assert!(dependencies.is_empty());
    assert_warning(&l, &warnings[0], "@import");
    assert_eq!(warnings.len(), 1);
    assert!(matches!(warnings[0], Warning::NotPrecededAtImport { .. }));
}

#[test]
fn url_string() {
    let mut v = LexDependencies::new(None);
    let mut l = Lexer::from(
        "body {\n    a: url(\"https://example\\2f4a8f.com\\\n    /image.png\");\n    b: image-set(\n        \"image1.png\" 1x,\n        \"image2.png\" 2x\n    );\n    c: image-set(\n        url(image1.avif) type(\"image/avif\"),\n        url(\"image2.jpg\") type(\"image/jpeg\")\n    );\n}\n",
    );
    l.lex(&mut v);
    let Collection {
        dependencies,
        warnings,
    } = v.finish();
    assert!(warnings.is_empty());
    assert_url_dependency(
        &l,
        &dependencies[0],
        "https://example\\2f4a8f.com\\\n    /image.png",
        UrlRangeKind::String,
        "\"https://example\\2f4a8f.com\\\n    /image.png\"",
    );
    assert_url_dependency(
        &l,
        &dependencies[1],
        "image1.png",
        UrlRangeKind::Function,
        "\"image1.png\"",
    );
    assert_url_dependency(
        &l,
        &dependencies[2],
        "image2.png",
        UrlRangeKind::Function,
        "\"image2.png\"",
    );
    assert_url_dependency(
        &l,
        &dependencies[3],
        "image1.avif",
        UrlRangeKind::Function,
        "url(image1.avif)",
    );
    assert_url_dependency(
        &l,
        &dependencies[4],
        "image2.jpg",
        UrlRangeKind::String,
        "\"image2.jpg\"",
    );
    assert_eq!(dependencies.len(), 5);
}

#[test]
fn empty() {
    let mut v = LexDependencies::new(None);
    let mut l = Lexer::from(
        "@import url();\n@import url(\"\");\nbody {\n    a: url();\n    b: url(\"\");\n    c: image-set();\n    d: image-set(\"\");\n    e: image-set(url());\n    f: image-set(url(\"\"));\n}\n",
    );
    l.lex(&mut v);
    let Collection {
        dependencies,
        warnings,
    } = v.finish();
    assert!(warnings.is_empty());
    // An import with an empty request is an import all the same.
    assert_eq!(
        dependencies[0],
        Dependency::Import {
            request: "",
            range: Range::new(0, 14),
            layer: None,
            supports: None,
            media: None,
        }
    );
    assert_eq!(
        dependencies[1],
        Dependency::Import {
            request: "",
            range: Range::new(15, 31),
            layer: None,
            supports: None,
            media: None,
        }
    );
    let urls = &dependencies[2..];
    assert_url_dependency(&l, &urls[0], "", UrlRangeKind::Function, "url()");
    assert_url_dependency(&l, &urls[1], "", UrlRangeKind::String, "\"\"");
    assert_url_dependency(&l, &urls[2], "", UrlRangeKind::Function, "\"\"");
    assert_url_dependency(&l, &urls[3], "", UrlRangeKind::Function, "url()");
    assert_url_dependency(&l, &urls[4], "", UrlRangeKind::String, "\"\"");
    assert_eq!(urls.len(), 5);
}

#[test]
fn import_with_bare_layer_and_media() {
    let source = "@import url(./a.css) layer screen;";
    let Collection {
        dependencies,
        warnings,
    } = collect_dependencies(source, None);
    assert!(warnings.is_empty());
    assert_eq!(
        dependencies,
        vec![Dependency::Import {
            request: "./a.css",
            range: Range::new(0, source.len()),
            layer: Some(""),
            supports: None,
            media: Some("screen"),
        }]
    );
}

#[test]
fn import_with_layer_supports_and_media() {
    let source = "@import url(\"./a.css\") layer(utilities) supports(display: grid) screen and (min-width: 400px);";
    let Collection {
        dependencies,
        warnings,
    } = collect_dependencies(source, None);
    assert!(warnings.is_empty());
    assert_eq!(
        dependencies,
        vec![Dependency::Import {
            request: "./a.css",
            range: Range::new(0, source.len()),
            layer: Some("utilities"),
            supports: Some("display: grid"),
            media: Some("screen and (min-width: 400px)"),
        }]
    );
}

#[test]
fn url_over_several_lines() {
    let source = "body { background: url(\n  https://example/image.png\n) }";
    let Collection {
        dependencies,
        warnings,
    } = collect_dependencies(source, None);
    assert!(warnings.is_empty());
    assert_eq!(dependencies.len(), 1);
    let Dependency::Url {
        request,
        range,
        kind,
    } = &dependencies[0]
    else {
        panic!("not a url");
    };
    assert_eq!(*request, "https://example/image.png");
    assert_eq!(*kind, UrlRangeKind::Function);
    assert_eq!(
        text(source, range),
        "url(\n  https://example/image.png\n)"
    );
}

#[test]
fn global_switches_locality_until_the_comma() {
    let source = ".a :global .b { color: red; }";
    let Collection {
        dependencies,
        warnings,
    } = collect_dependencies(source, local());
    assert!(warnings.is_empty());
    assert_eq!(
        dependencies,
        vec![
            Dependency::LocalIdent {
                name: "a",
                range: Range::new(1, 2),
            },
            Dependency::Replace {
                content: "",
                range: Range::new(3, 11),
            },
        ]
    );
    assert_eq!(text(source, &Range::new(3, 11)), ":global ");

    let Collection { dependencies, .. } = collect_dependencies(".a :global .b, .c {}", local());
    assert_eq!(
        dependencies,
        vec![
            Dependency::LocalIdent {
                name: "a",
                range: Range::new(1, 2),
            },
            Dependency::Replace {
                content: "",
                range: Range::new(3, 11),
            },
            Dependency::LocalIdent {
                name: "c",
                range: Range::new(16, 17),
            },
        ]
    );
}

#[test]
fn export_block() {
    let source = ":export { foo: bar; baz:  qux ; }";
    let Collection {
        dependencies,
        warnings,
    } = collect_dependencies(source, local());
    assert!(warnings.is_empty());
    assert_eq!(
        dependencies,
        vec![
            Dependency::ICSSExport {
                prop: "foo",
                value: "bar",
            },
            Dependency::ICSSExport {
                prop: "baz",
                value: "qux",
            },
            Dependency::Replace {
                content: "",
                range: Range::new(0, source.len()),
            },
        ]
    );
}

#[test]
fn local_variable_declared_and_used() {
    let source = ".a { --x: 1px; color: var(--x); }";
    let Collection {
        dependencies,
        warnings,
    } = collect_dependencies(source, local());
    assert!(warnings.is_empty());
    assert_eq!(
        dependencies,
        vec![
            Dependency::LocalIdent {
                name: "a",
                range: Range::new(1, 2),
            },
            Dependency::LocalVarDecl {
                name_range: Range::new(5, 8),
                name: "x",
                value: "1px",
            },
            Dependency::LocalVar {
                name: "x",
                range: Range::new(26, 29),
            },
        ]
    );
    assert_eq!(text(source, &Range::new(5, 8)), "--x");
    assert_eq!(text(source, &Range::new(26, 29)), "--x");
}

#[test]
fn empty_urls_in_a_block() {
    for (source, kind) in [
        ("a { b: url() }", UrlRangeKind::Function),
        ("a { b: url(\"\") }", UrlRangeKind::String),
        ("a { b: image-set(\"\") }", UrlRangeKind::Function),
        ("a { b: image-set(url()) }", UrlRangeKind::Function),
    ] {
        let Collection {
            dependencies,
            warnings,
        } = collect_dependencies(source, None);
        assert!(warnings.is_empty());
        assert_eq!(dependencies.len(), 1, "{source}");
        let Dependency::Url {
            request, kind: k, ..
        } = &dependencies[0]
        else {
            panic!("not a url");
        };
        assert_eq!(*request, "");
        assert_eq!(*k, kind);
    }
}

#[test]
fn lex_and_collect_agree() {
    let source = "@import url(a.css) layer(x);\n.a { b: url(c.png); --d: e; f: var(--d) }\n:export { g: h }\n";
    let mut v = LexDependencies::new(global());
    let mut l = Lexer::from(source);
    assert_eq!(l.lex(&mut v), Some(()));
    assert_eq!(v.finish(), collect_dependencies(source, global()));
}
