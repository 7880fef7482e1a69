use css_module_lexer::dependencies::LexDependencies;
use css_module_lexer::Lexer;

#[test]
fn cursor_walks_characters() {
    let mut l = Lexer::from("a\u{e9} b");
    assert_eq!(l.len(), 5);
    assert_eq!(l.text(), "a\u{e9} b");
    assert_eq!(l.cur(), Some('a'));
    assert_eq!(l.peek(), Some('\u{e9}'));
    assert_eq!(l.peek2(), Some(' '));
    assert_eq!(l.cur_pos(), 0);
    assert_eq!(l.peek_pos(), Some(1));
    assert_eq!(l.peek2_pos(), Some(3));
    assert_eq!(l.cur_byte(), Some(b'a'));
    assert_eq!(l.peek_byte(), Some(0xc3));

    l.consume();
    assert_eq!(l.cur(), Some('\u{e9}'));
    assert_eq!(l.peek(), Some(' '));
    assert_eq!(l.peek2(), Some('b'));
    assert_eq!(l.cur_pos(), 1);
    assert_eq!(l.peek_pos(), Some(3));
    assert_eq!(l.peek2_pos(), Some(4));

    l.consume();
    l.consume();
    assert_eq!(l.cur(), Some('b'));
    assert_eq!(l.peek(), None);
    assert_eq!(l.peek2(), None);
    assert_eq!(l.cur_pos(), 4);
    assert_eq!(l.peek_pos(), Some(5));
    assert_eq!(l.peek2_pos(), None);
    assert_eq!(l.peek_byte(), None);

    l.consume();
    assert_eq!(l.cur(), None);
    assert_eq!(l.cur_byte(), None);
    assert_eq!(l.cur_pos(), 5);
    assert_eq!(l.peek_pos(), None);
    l.consume();
    assert_eq!(l.cur_pos(), 5);
}

#[test]
fn four_byte_characters() {
    let mut l = Lexer::from("\u{1F600}x");
    assert_eq!(l.cur(), Some('\u{1F600}'));
    assert_eq!(l.peek_pos(), Some(4));
    assert_eq!(l.peek(), Some('x'));
    assert_eq!(l.peek2_pos(), Some(5));
    l.consume();
    assert_eq!(l.cur_pos(), 4);
    assert_eq!(l.cur(), Some('x'));
}

#[test]
fn slice_needs_character_boundaries() {
    let l = Lexer::from("a\u{e9}");
    assert_eq!(l.slice(0, 1), Some("a"));
    assert_eq!(l.slice(1, 3), Some("\u{e9}"));
    assert_eq!(l.slice(0, 3), Some("a\u{e9}"));
    assert_eq!(l.slice(3, 3), Some(""));
    assert_eq!(l.slice(1, 2), None);
    assert_eq!(l.slice(2, 3), None);
    assert_eq!(l.slice(2, 1), None);
    assert_eq!(l.slice(0, 4), None);
    assert_eq!(l.text_of(1, 3), "\u{e9}");
}

#[test]
fn white_space_and_comments_are_skipped() {
    let mut l = Lexer::from(" \t\n/* a */ /* b *//**/x");
    l.consume_white_space_and_comments();
    assert_eq!(l.cur_pos(), 22);
    assert_eq!(l.cur(), Some('x'));
    l.consume_white_space_and_comments();
    assert_eq!(l.cur_pos(), 22);

    let mut l = Lexer::from("\r\x0c x");
    l.consume_white_space_and_comments();
    assert_eq!(l.cur_pos(), 3);

    let mut l = Lexer::from("/*/ x */y");
    l.consume_white_space_and_comments();
    assert_eq!(l.cur_pos(), 8);

    let mut l = Lexer::from("/ * x");
    l.consume_white_space_and_comments();
    assert_eq!(l.cur_pos(), 0);
}

#[test]
fn unterminated_comment_runs_to_the_end() {
    let mut l = Lexer::from("  /* abc");
    l.consume_white_space_and_comments();
    assert_eq!(l.cur_pos(), 8);
    assert_eq!(l.cur(), None);

    let mut l = Lexer::from("/* abc *");
    l.consume_white_space_and_comments();
    assert_eq!(l.cur_pos(), 8);
}

#[test]
fn ident_sequences() {
    let end = |source: &str| {
        let mut l = Lexer::from(source);
        l.consume_ident_sequence();
        l.cur_pos()
    };
    assert_eq!(end("ab-c_d1 e"), 7);
    assert_eq!(end("--x: 1"), 3);
    assert_eq!(end("a\\ b c"), 4);
    // a hex escape takes one white space with it
    assert_eq!(end("a\\2f b c"), 6);
    assert_eq!(end("a\\2f  b"), 5);
    // at most six hex digits belong to an escape
    assert_eq!(end("\\0000417 x"), 8);
    assert_eq!(end("\\000041 7 x"), 9);
    // a backslash before a newline is no escape
    assert_eq!(end("a\\\nb"), 1);
    assert_eq!(end("a\\"), 1);
    assert_eq!(end("\u{e9}1-x;"), 5);
    assert_eq!(end("a\\\u{e9}b c"), 5);
    assert_eq!(end("(a"), 0);
    assert_eq!(end(""), 0);
}

#[test]
fn advance_to_moves_the_cursor() {
    let mut l = Lexer::from("abc def");
    l.advance_to(4);
    assert_eq!(l.cur(), Some('d'));
    assert_eq!(l.bytes(), b"abc def");
}

#[test]
fn nested_syntax_probe() {
    let probe = |source: &str| LexDependencies::is_next_nested_syntax(&Lexer::from(source));
    assert_eq!(probe("  { a"), Some(false));
    assert_eq!(probe("  a {"), Some(false));
    assert_eq!(probe("  _a {"), Some(false));
    assert_eq!(probe("  \u{e9} {"), Some(false));
    assert_eq!(probe("  & a"), Some(true));
    assert_eq!(probe("/* c */ +"), Some(true));
    assert_eq!(probe("-a"), Some(true));
    assert_eq!(probe("   "), None);
    assert_eq!(probe(""), None);
}
