use css_module_lexer::{
    collect_dependencies, Collection, CssModulesModeData, Dependency, LexDependencies, Lexer,
    Range, TokenKind, UrlRangeKind, Visitor, Warning,
};

fn local() -> Option<CssModulesModeData> {
    Some(CssModulesModeData::new(true))
}

fn global() -> Option<CssModulesModeData> {
    Some(CssModulesModeData::new(false))
}

fn collect<'s>(
    source: &'s str,
    mode: Option<CssModulesModeData>,
) -> (Vec<Dependency<'s>>, Vec<Warning>) {
    let Collection {
        dependencies,
        warnings,
    } = collect_dependencies(source, mode);
    (dependencies, warnings)
}

fn import<'s>(
    request: &'s str,
    range: Range,
    layer: Option<&'s str>,
    supports: Option<&'s str>,
    media: Option<&'s str>,
) -> Dependency<'s> {
    Dependency::Import {
        request,
        range,
        layer,
        supports,
        media,
    }
}

#[test]
fn plain_imports() {
    assert_eq!(
        collect("@import 'a.css';", None),
        (
            vec![import("a.css", Range::new(0, 16), None, None, None)],
            vec![]
        )
    );
    assert_eq!(
        collect("@import url(a.css);@import url( \"b.css\" ) ;", None),
        (
            vec![
                import("a.css", Range::new(0, 19), None, None, None),
                import("b.css", Range::new(19, 43), None, None, None),
            ],
            vec![]
        )
    );
}

#[test]
fn import_in_capitals() {
    assert_eq!(
        collect("@IMPORT URL(a.css) LAYER(b) SUPPORTS(c);", None),
        (
            vec![import(
                "a.css",
                Range::new(0, 40),
                Some("b"),
                Some("c"),
                None
            )],
            vec![]
        )
    );
}

#[test]
fn media_leaves_out_leading_white_space_and_comments() {
    let (dependencies, warnings) = collect("@import url(a) ;", None);
    assert_eq!(
        dependencies,
        vec![import("a", Range::new(0, 16), None, None, None)]
    );
    assert!(warnings.is_empty());

    let (dependencies, _) = collect("@import 'a.css' /* c */ screen ;", None);
    assert_eq!(
        dependencies,
        vec![import(
            "a.css",
            Range::new(0, 32),
            None,
            None,
            Some("screen ")
        )]
    );

    let (dependencies, _) = collect("@import 'a.css'print;", None);
    assert_eq!(
        dependencies,
        vec![import("a.css", Range::new(0, 21), None, None, Some("print"))]
    );
}

#[test]
fn a_second_string_after_the_url_is_media() {
    assert_eq!(
        collect("@import 'a.css' 'b.css';", None),
        (
            vec![import(
                "a.css",
                Range::new(0, 24),
                None,
                None,
                Some("'b.css'")
            )],
            vec![]
        )
    );
}

#[test]
fn urls_inside_supports_are_no_requests() {
    assert_eq!(
        collect(
            "@import url(a.css) supports(background: url(b.png)) screen;",
            None
        ),
        (
            vec![import(
                "a.css",
                Range::new(0, 59),
                None,
                Some("background: url(b.png)"),
                Some("screen")
            )],
            vec![]
        )
    );
    assert_eq!(
        collect("@import 'a.css' supports(font-format(\"x\"));", None),
        (
            vec![import(
                "a.css",
                Range::new(0, 43),
                None,
                Some("font-format(\"x\")"),
                None
            )],
            vec![]
        )
    );
}

#[test]
fn import_without_url() {
    assert_eq!(
        collect("@import layer;", None),
        (
            vec![],
            vec![Warning::ExpectedUrl {
                range: Range::new(0, 14)
            }]
        )
    );
    assert_eq!(
        collect("@import;", None),
        (
            vec![],
            vec![Warning::ExpectedUrl {
                range: Range::new(0, 8)
            }]
        )
    );
}

#[test]
fn import_ended_inside_its_url() {
    assert_eq!(
        collect("@import url(\"a.css\";", None),
        (
            vec![],
            vec![Warning::Unexpected {
                unexpected: Range::new(19, 20),
                range: Range::new(0, 20)
            }]
        )
    );
}

#[test]
fn import_ended_inside_supports() {
    assert_eq!(
        collect("@import url(a) supports(x;", None),
        (
            vec![import(
                "a",
                Range::new(0, 26),
                None,
                None,
                Some("supports(x")
            )],
            vec![Warning::Unexpected {
                unexpected: Range::new(25, 26),
                range: Range::new(15, 26)
            }]
        )
    );
}

#[test]
fn layer_before_url() {
    assert_eq!(
        collect("@import layer(x) url(a.css);", None),
        (
            vec![],
            vec![Warning::ExpectedBefore {
                should_after: Range::new(8, 16),
                range: Range::new(17, 27)
            }]
        )
    );
}

#[test]
fn supports_before_url() {
    assert_eq!(
        collect("@import supports(x) 'a.css';", None),
        (
            vec![],
            vec![Warning::ExpectedBefore {
                should_after: Range::new(8, 19),
                range: Range::new(20, 27)
            }]
        )
    );
}

#[test]
fn supports_before_layer() {
    assert_eq!(
        collect("@import url(a) supports(x) layer(y);", None),
        (
            vec![],
            vec![Warning::ExpectedBefore {
                should_after: Range::new(15, 26),
                range: Range::new(27, 35)
            }]
        )
    );
}

#[test]
fn namespace_is_refused() {
    assert_eq!(
        collect("@namespace svg url(http://www.w3.org/2000/svg);\n@import 'a';", None),
        (
            vec![import("a", Range::new(48, 60), None, None, None)],
            vec![Warning::NamespaceNotSupportedInBundledCss {
                range: Range::new(0, 10)
            }]
        )
    );
}

#[test]
fn import_after_a_block() {
    assert_eq!(
        collect("a { b { } } @import 'c';", None),
        (
            vec![],
            vec![Warning::NotPrecededAtImport {
                range: Range::new(12, 19)
            }]
        )
    );
}

#[test]
fn import_inside_a_block() {
    let source = "@media (x) { @import 'a.css'; body { background: url(b.png) } }";
    assert_eq!(
        collect(source, None),
        (
            vec![Dependency::Url {
                request: "b.png",
                range: Range::new(49, 59),
                kind: UrlRangeKind::Function
            }],
            vec![Warning::NotPrecededAtImport {
                range: Range::new(13, 20)
            }]
        )
    );
}

#[test]
fn urls_at_the_top_level_are_none() {
    assert_eq!(collect("url(a.png) 'b' url('c')", None), (vec![], vec![]));
}

#[test]
fn strings_in_other_functions_are_no_urls() {
    assert_eq!(
        collect("a { b: 'x' f('y') url (('z')) }", None),
        (vec![], vec![])
    );
}

#[test]
fn var_without_a_custom_property() {
    assert_eq!(
        collect(".a { b: var(x) }", local()),
        (
            vec![Dependency::LocalIdent {
                name: "a",
                range: Range::new(1, 2)
            }],
            vec![Warning::Unexpected {
                unexpected: Range::new(12, 14),
                range: Range::new(8, 14)
            }]
        )
    );
}

#[test]
fn var_with_more_than_a_name() {
    assert_eq!(
        collect(".a { b: var(--x y) }", local()),
        (
            vec![Dependency::LocalIdent {
                name: "a",
                range: Range::new(1, 2)
            }],
            vec![Warning::Unexpected {
                unexpected: Range::new(16, 17),
                range: Range::new(14, 17)
            }]
        )
    );
}

#[test]
fn var_with_white_space_and_comments() {
    assert_eq!(
        collect("a { b: var( /* c */ --x-y ) }", local()),
        (
            vec![Dependency::LocalVar {
                name: "x-y",
                range: Range::new(20, 25)
            }],
            vec![]
        )
    );
}

#[test]
fn var_is_global_where_names_are() {
    assert_eq!(collect("a { b: var(--x) }", global()), (vec![], vec![]));
    assert_eq!(
        collect(":local a { b: VAR(--x) }", global()),
        (
            vec![
                Dependency::Replace {
                    content: "",
                    range: Range::new(0, 7)
                },
                Dependency::LocalVar {
                    name: "x",
                    range: Range::new(18, 21)
                }
            ],
            vec![]
        )
    );
}

#[test]
fn custom_property_without_a_colon() {
    assert_eq!(
        collect("a { --x 1px; }", local()),
        (
            vec![],
            vec![Warning::Unexpected {
                unexpected: Range::new(8, 9),
                range: Range::new(4, 9)
            }]
        )
    );
}

#[test]
fn custom_property_up_to_the_closing_bracket() {
    assert_eq!(
        collect(".a{--x:1px}", local()),
        (
            vec![
                Dependency::LocalIdent {
                    name: "a",
                    range: Range::new(1, 2)
                },
                Dependency::LocalVarDecl {
                    name_range: Range::new(3, 6),
                    name: "x",
                    value: "1px"
                }
            ],
            vec![]
        )
    );
}

#[test]
fn custom_property_value_keeps_its_trailing_white_space() {
    assert_eq!(
        collect("a { --x-y : 1px  2px ; }", local()),
        (
            vec![Dependency::LocalVarDecl {
                name_range: Range::new(4, 9),
                name: "x-y",
                value: "1px  2px "
            }],
            vec![]
        )
    );
}

#[test]
fn custom_property_value_is_not_read_for_urls() {
    assert_eq!(
        collect("a { --x: url(a.png); b: url(c.png) }", local()),
        (
            vec![
                Dependency::LocalVarDecl {
                    name_range: Range::new(4, 7),
                    name: "x",
                    value: "url(a.png)"
                },
                Dependency::Url {
                    request: "c.png",
                    range: Range::new(24, 34),
                    kind: UrlRangeKind::Function
                }
            ],
            vec![]
        )
    );
}

#[test]
fn custom_property_outside_a_block_is_no_declaration() {
    assert_eq!(collect("--x: 1px;", local()), (vec![], vec![]));
}

#[test]
fn local_and_global_functions() {
    assert_eq!(
        collect(":local(.a) .b {}", global()),
        (
            vec![
                Dependency::Replace {
                    content: "",
                    range: Range::new(0, 7)
                },
                Dependency::LocalIdent {
                    name: "a",
                    range: Range::new(8, 9)
                },
                Dependency::Replace {
                    content: "",
                    range: Range::new(9, 10)
                },
            ],
            vec![]
        )
    );
}

#[test]
fn nested_local_and_global_functions() {
    assert_eq!(
        collect(":global(:local(.a) .b) #c", local()),
        (
            vec![
                Dependency::Replace {
                    content: "",
                    range: Range::new(0, 8)
                },
                Dependency::Replace {
                    content: "",
                    range: Range::new(8, 15)
                },
                Dependency::LocalIdent {
                    name: "a",
                    range: Range::new(16, 17)
                },
                Dependency::Replace {
                    content: "",
                    range: Range::new(17, 18)
                },
                Dependency::Replace {
                    content: "",
                    range: Range::new(21, 22)
                },
                Dependency::LocalIdent {
                    name: "c",
                    range: Range::new(24, 25)
                },
            ],
            vec![]
        )
    );
}

#[test]
fn local_and_global_in_capitals() {
    assert_eq!(
        collect(":GLOBAL(.a) :Local .b", local()),
        (
            vec![
                Dependency::Replace {
                    content: "",
                    range: Range::new(0, 8)
                },
                Dependency::Replace {
                    content: "",
                    range: Range::new(10, 11)
                },
                Dependency::Replace {
                    content: "",
                    range: Range::new(12, 19)
                },
                Dependency::LocalIdent {
                    name: "b",
                    range: Range::new(20, 21)
                },
            ],
            vec![]
        )
    );
}

#[test]
fn comments_after_a_locality_are_kept() {
    assert_eq!(
        collect(":local /* c */ .a {}", global()),
        (
            vec![
                Dependency::Replace {
                    content: "/* c */",
                    range: Range::new(0, 15)
                },
                Dependency::LocalIdent {
                    name: "a",
                    range: Range::new(16, 17)
                },
            ],
            vec![]
        )
    );
    assert_eq!(
        collect(":global", local()),
        (
            vec![Dependency::Replace {
                content: "",
                range: Range::new(0, 7)
            }],
            vec![]
        )
    );
}

#[test]
fn a_stray_closing_parenthesis_is_tolerated() {
    assert_eq!(
        collect(") .a ) {}", local()),
        (
            vec![Dependency::LocalIdent {
                name: "a",
                range: Range::new(3, 4)
            }],
            vec![]
        )
    );
}

#[test]
fn export_without_a_block() {
    assert_eq!(
        collect(":export x {}", local()),
        (
            vec![Dependency::Replace {
                content: "",
                range: Range::new(0, 8)
            }],
            vec![Warning::Unexpected {
                unexpected: Range::new(8, 9),
                range: Range::new(0, 9)
            }]
        )
    );
}

#[test]
fn export_entry_without_a_colon() {
    assert_eq!(
        collect(":export { a: b; c }", local()),
        (
            vec![
                Dependency::ICSSExport {
                    prop: "a",
                    value: "b"
                },
                Dependency::Replace {
                    content: "",
                    range: Range::new(0, 18)
                }
            ],
            vec![Warning::Unexpected {
                unexpected: Range::new(18, 19),
                range: Range::new(16, 19)
            }]
        )
    );
}

#[test]
fn export_with_comments() {
    assert_eq!(
        collect(":export{/* a */b /* c */:/* d */e f /* g */;}x", local()),
        (
            vec![
                Dependency::ICSSExport {
                    prop: "b",
                    value: "e f /* g */"
                },
                Dependency::Replace {
                    content: "",
                    range: Range::new(0, 45)
                }
            ],
            vec![]
        )
    );
}

#[test]
fn empty_export_block() {
    assert_eq!(
        collect(":export {}", local()),
        (
            vec![Dependency::Replace {
                content: "",
                range: Range::new(0, 10)
            }],
            vec![]
        )
    );
}

#[test]
fn export_inside_a_block_is_none() {
    assert_eq!(collect("a { :export { b: c } }", local()), (vec![], vec![]));
}

#[test]
fn unfinished_export_stops_the_pass() {
    assert_eq!(
        collect(".a {} :export { a: b; c: d", local()),
        (
            vec![
                Dependency::LocalIdent {
                    name: "a",
                    range: Range::new(1, 2)
                },
                Dependency::ICSSExport {
                    prop: "a",
                    value: "b"
                },
            ],
            vec![]
        )
    );
    let mut v = LexDependencies::new(local());
    let mut l = Lexer::from(".a {} :export { a");
    assert_eq!(l.lex(&mut v), None);
    assert_eq!(v.dependencies().len(), 1);
    assert!(v.warnings().is_empty());
}

#[test]
fn unfinished_declaration_stops_the_pass() {
    let mut v = LexDependencies::new(local());
    let mut l = Lexer::from("a { --x: 1px");
    assert_eq!(l.lex(&mut v), None);
    assert!(v.dependencies().is_empty());
    assert_eq!(l.cur_pos(), 12);
}

#[test]
fn modules_off() {
    let source = ".a :local(.b) :global #c { --x: 1; y: var(--x); z: url(i.png) } :export { a: b }";
    assert_eq!(
        collect(source, None),
        (
            vec![Dependency::Url {
                request: "i.png",
                range: Range::new(51, 61),
                kind: UrlRangeKind::Function
            }],
            vec![]
        )
    );
}

#[test]
fn names_in_more_than_one_byte() {
    assert_eq!(
        collect(".\u{e9} { background: url(\u{fc}.png) }", local()),
        (
            vec![
                Dependency::LocalIdent {
                    name: "\u{e9}",
                    range: Range::new(1, 3)
                },
                Dependency::Url {
                    request: "\u{fc}.png",
                    range: Range::new(18, 29),
                    kind: UrlRangeKind::Function
                }
            ],
            vec![]
        )
    );
    assert_eq!(
        collect("a { b: var(\u{e9}\u{e9}) }", local()),
        (
            vec![],
            vec![Warning::Unexpected {
                unexpected: Range::new(11, 15),
                range: Range::new(7, 15)
            }]
        )
    );
}

#[test]
fn ids_and_classes() {
    assert_eq!(
        collect("#a.b { color: #fff }", local()),
        (
            vec![
                Dependency::LocalIdent {
                    name: "a",
                    range: Range::new(1, 2)
                },
                Dependency::LocalIdent {
                    name: "b",
                    range: Range::new(3, 4)
                },
                Dependency::LocalIdent {
                    name: "fff",
                    range: Range::new(15, 18)
                },
            ],
            vec![]
        )
    );
    assert_eq!(collect("#a.b {}", global()), (vec![], vec![]));
}

#[test]
fn events_by_hand() {
    let mut v = LexDependencies::new(local());
    let mut l = Lexer::from(".a{");
    assert_eq!(v.is_selector(&mut l), Some(true));
    let t = l.read_token(true);
    assert_eq!(t.kind, TokenKind::Class);
    assert_eq!(v.class(&mut l, 0, t.end), Some(()));
    assert_eq!(
        v.dependencies(),
        &vec![Dependency::LocalIdent {
            name: "a",
            range: Range::new(1, 2)
        }]
    );
    assert_eq!(l.cur_pos(), 2);
}
