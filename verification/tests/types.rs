use css_module_lexer::chars::{
    is_digit, is_hex_digit, is_ident, is_ident_start, is_new_line, is_white_space, to_ascii_lower,
};
use css_module_lexer::scan::{
    at_ident_sequence, at_number, at_valid_escape, skip_backslash, skip_comment, skip_digits,
    skip_escape, skip_hex_run, skip_ident, skip_numeric, skip_string, skip_trivia, skip_url,
    skip_white_space,
};
use css_module_lexer::text::{bytes_eq, eq_ignore_ascii_case, trim_end, trim_start};
use css_module_lexer::token::scan_token;
use css_module_lexer::{
    BalancedItem, BalancedItemKind, CssModulesModeData, ImportData, ImportDataLayer,
    ImportDataSupports, Range, Token, TokenKind,
};

#[test]
fn range_new() {
    let r = Range::new(3, 7);
    assert_eq!(r.start, 3);
    assert_eq!(r.end, 7);
    assert_eq!(r, Range { start: 3, end: 7 });
}

#[test]
fn mode_data() {
    let mut local = CssModulesModeData::new(true);
    assert!(local.is_local_mode());
    local.set_global();
    assert!(!local.is_local_mode());
    local.set_none();
    assert!(local.is_local_mode());
    local.set_local();
    assert!(local.is_local_mode());

    let mut global = CssModulesModeData::new(false);
    assert!(!global.is_local_mode());
    global.set_local();
    assert!(global.is_local_mode());
    global.set_none();
    assert!(!global.is_local_mode());
    global.set_global();
    assert!(!global.is_local_mode());
}

#[test]
fn balanced_item_kinds() {
    assert_eq!(BalancedItemKind::new("url"), BalancedItemKind::Url);
    assert_eq!(BalancedItemKind::new("image-set"), BalancedItemKind::ImageSet);
    assert_eq!(BalancedItemKind::new("layer"), BalancedItemKind::Layer);
    assert_eq!(BalancedItemKind::new("supports"), BalancedItemKind::Supports);
    assert_eq!(BalancedItemKind::new(":local"), BalancedItemKind::Local);
    assert_eq!(BalancedItemKind::new(":global"), BalancedItemKind::Global);
    assert_eq!(BalancedItemKind::new("var"), BalancedItemKind::Other);
    assert_eq!(BalancedItemKind::new("local"), BalancedItemKind::Other);
    assert_eq!(BalancedItemKind::new(""), BalancedItemKind::Other);
    assert_eq!(BalancedItemKind::new("URL"), BalancedItemKind::Other);
    assert_eq!(BalancedItemKind::new("url("), BalancedItemKind::Other);
}

#[test]
fn balanced_item_kinds_in_any_case() {
    assert_eq!(
        BalancedItemKind::of_name(b"a URL(", 2, 5),
        BalancedItemKind::Url
    );
    assert_eq!(
        BalancedItemKind::of_name(b"Image-Set", 0, 9),
        BalancedItemKind::ImageSet
    );
    assert_eq!(
        BalancedItemKind::of_name(b":LOCAL(", 0, 6),
        BalancedItemKind::Local
    );
    assert_eq!(
        BalancedItemKind::of_name(b":LOCAL(", 0, 7),
        BalancedItemKind::Other
    );
    assert_eq!(BalancedItemKind::of_name(b"", 0, 0), BalancedItemKind::Other);
}

#[test]
fn balanced_items() {
    assert_eq!(
        BalancedItem::new("layer", 3, 9),
        BalancedItem {
            kind: BalancedItemKind::Layer,
            range: Range::new(3, 9)
        }
    );
    assert_eq!(
        BalancedItem::new("calc", 0, 5),
        BalancedItem {
            kind: BalancedItemKind::Other,
            range: Range::new(0, 5)
        }
    );
    assert_eq!(
        BalancedItem::new_other(4, 5),
        BalancedItem {
            kind: BalancedItemKind::Other,
            range: Range::new(4, 5)
        }
    );
}

#[test]
fn import_data() {
    let mut data = ImportData::new(5);
    assert_eq!(data.start, 5);
    assert_eq!(data.url, None);
    assert_eq!(data.url_range, None);
    assert!(!data.in_supports());
    assert_eq!(data.layer_range(), None);
    assert_eq!(data.supports_range(), None);

    data.layer = ImportDataLayer::EndLayer {
        value: "x",
        range: Range::new(20, 28),
    };
    assert_eq!(data.layer_range(), Some(&Range::new(20, 28)));
    assert_eq!(data.supports_range(), None);

    data.supports = ImportDataSupports::InSupports { start: 30 };
    assert!(data.in_supports());
    assert_eq!(data.supports_range(), None);

    data.supports = ImportDataSupports::EndSupports {
        value: "y",
        range: Range::new(30, 41),
    };
    assert!(!data.in_supports());
    assert_eq!(data.supports_range(), Some(&Range::new(30, 41)));
}

#[test]
fn classes_of_bytes() {
    for b in [b'\t', b'\n', 0x0c, b'\r', b' '] {
        assert!(is_white_space(b));
    }
    assert!(!is_white_space(0x0b));
    assert!(!is_white_space(b'a'));
    assert!(is_new_line(b'\n') && is_new_line(b'\r') && is_new_line(0x0c));
    assert!(!is_new_line(b' ') && !is_new_line(b'\t'));
    assert!(is_digit(b'0') && is_digit(b'9') && !is_digit(b'a') && !is_digit(b'/'));
    assert!(is_hex_digit(b'0') && is_hex_digit(b'a') && is_hex_digit(b'F'));
    assert!(!is_hex_digit(b'g') && !is_hex_digit(b'G') && !is_hex_digit(b' '));
    assert!(is_ident_start(b'a') && is_ident_start(b'Z') && is_ident_start(b'_'));
    assert!(is_ident_start(0x80) && is_ident_start(0xff));
    assert!(!is_ident_start(b'-') && !is_ident_start(b'1') && !is_ident_start(b'\\'));
    assert!(is_ident(b'-') && is_ident(b'1') && is_ident(b'a') && is_ident(0xc3));
    assert!(!is_ident(b'.') && !is_ident(b' ') && !is_ident(b'('));
    assert_eq!(to_ascii_lower(b'A'), b'a');
    assert_eq!(to_ascii_lower(b'Z'), b'z');
    assert_eq!(to_ascii_lower(b'a'), b'a');
    assert_eq!(to_ascii_lower(b'@'), b'@');
    assert_eq!(to_ascii_lower(b'['), b'[');
    assert_eq!(to_ascii_lower(0xc9), 0xc9);
}

#[test]
fn comparing_and_trimming() {
    assert!(bytes_eq(b"abc", b"abc"));
    assert!(!bytes_eq(b"abc", b"abd"));
    assert!(!bytes_eq(b"abc", b"ab"));
    assert!(bytes_eq(b"", b""));
    assert!(eq_ignore_ascii_case(b"x @ImPoRt y", 2, 9, b"@import"));
    assert!(!eq_ignore_ascii_case(b"x @ImPoRt y", 2, 8, b"@import"));
    assert!(!eq_ignore_ascii_case(b"@imporz", 0, 7, b"@import"));
    assert!(eq_ignore_ascii_case(b"abc", 1, 1, b""));
    assert_eq!(trim_end(b"ab \t\n", 0, 5), 2);
    assert_eq!(trim_end(b"ab \t\n", 2, 5), 2);
    assert_eq!(trim_end(b"ab \t\n", 0, 2), 2);
    assert_eq!(trim_end(b" a b", 0, 4), 4);
    assert_eq!(trim_start(b"  ab ", 0, 5), 2);
    assert_eq!(trim_start(b"  ab ", 0, 1), 1);
    assert_eq!(trim_start(b"ab", 0, 2), 0);
    assert_eq!(trim_start(b"   ", 0, 2), 2);
}

#[test]
fn scanning() {
    assert_eq!(skip_white_space(b"a \t b", 1), 4);
    assert_eq!(skip_white_space(b"a \t b", 4), 4);
    assert_eq!(skip_comment(b"/* a */ b", 2), 7);
    assert_eq!(skip_comment(b"/* a * / b", 2), 10);
    assert_eq!(skip_comment(b"/**/", 2), 4);
    assert_eq!(skip_comment(b"/*/", 2), 3);
    assert_eq!(skip_trivia(b" /**/ /* */a", 0), 11);
    assert_eq!(skip_hex_run(b"12ab3g", 0, 6), 5);
    assert_eq!(skip_hex_run(b"1234567", 0, 6), 6);
    assert_eq!(skip_hex_run(b"1234567", 0, 0), 0);
    assert!(at_valid_escape(b"\\a", 0));
    assert!(!at_valid_escape(b"\\\n", 0));
    assert!(!at_valid_escape(b"\\", 0));
    assert!(!at_valid_escape(b"a\\a", 0));
    assert_eq!(skip_escape(b"\\g b", 0), 2);
    assert_eq!(skip_escape(b"\\a b", 0), 3);
    assert_eq!(skip_escape(b"\\ab b", 0), 4);
    assert_eq!(skip_escape(b"\\ab\r\nb", 0), 5);
    assert_eq!(skip_escape(b"\\abx", 0), 3);
    assert_eq!(skip_backslash(b"\\\nb", 0), 2);
    assert_eq!(skip_backslash(b"\\\r\nb", 0), 3);
    assert_eq!(skip_backslash(b"\\\rb", 0), 2);
    assert_eq!(skip_backslash(b"\\xb", 0), 2);
    assert_eq!(skip_ident(b"ab\\ c d", 0), 5);
    assert!(at_ident_sequence(b"a", 0));
    assert!(at_ident_sequence(b"-a", 0));
    assert!(at_ident_sequence(b"--", 0));
    assert!(at_ident_sequence(b"-\\a", 0));
    assert!(at_ident_sequence(b"\\a", 0));
    assert!(!at_ident_sequence(b"-", 0));
    assert!(!at_ident_sequence(b"-1", 0));
    assert!(!at_ident_sequence(b"1", 0));
    assert!(!at_ident_sequence(b"\\\n", 0));
    assert!(!at_ident_sequence(b"", 0));
    assert!(at_number(b"1", 0));
    assert!(at_number(b"+1", 0));
    assert!(at_number(b"-.1", 0));
    assert!(at_number(b".1", 0));
    assert!(!at_number(b"+", 0));
    assert!(!at_number(b"-.", 0));
    assert!(!at_number(b".", 0));
    assert!(!at_number(b"a", 0));
    assert_eq!(skip_digits(b"123a", 0), 3);
    assert_eq!(skip_numeric(b"12.5e-3px;", 0), 9);
    assert_eq!(skip_numeric(b"12.5e-x;", 0), 7);
    assert_eq!(skip_numeric(b"1.e3", 0), 1);
    assert_eq!(skip_numeric(b"+.5%;", 0), 4);
    assert_eq!(skip_numeric(b"1E2", 0), 3);
    assert_eq!(skip_string(b"'ab' c", 1, b'\''), (4, true));
    assert_eq!(skip_string(b"'a\\'b' c", 1, b'\''), (6, true));
    assert_eq!(skip_string(b"'ab\nc'", 1, b'\''), (3, false));
    assert_eq!(skip_string(b"'ab", 1, b'\''), (3, false));
    assert_eq!(skip_string(b"'ab\\", 1, b'\''), (4, false));
    assert_eq!(skip_string(b"\"a'b\"", 1, b'"'), (5, true));
    assert_eq!(skip_url(b"url( a b ) c", 5, 5), (8, 10));
    assert_eq!(skip_url(b"url()", 4, 4), (4, 5));
    assert_eq!(skip_url(b"url(a", 4, 4), (5, 5));
    assert_eq!(skip_url(b"url(a  ", 4, 4), (5, 7));
    assert_eq!(skip_url(b"url(a\\)b)", 4, 4), (8, 9));
}

#[test]
fn tokens() {
    let plain = |kind, end| Token {
        kind,
        end,
        content_start: end,
        content_end: end,
    };
    assert_eq!(scan_token(b"ab cd", 0, true), plain(TokenKind::Ident, 2));
    assert_eq!(scan_token(b"ab(cd", 0, true), plain(TokenKind::Function, 3));
    assert_eq!(scan_token(b"'a' b", 0, true), plain(TokenKind::String, 3));
    assert_eq!(scan_token(b"'a\nb", 0, true), plain(TokenKind::Other, 2));
    assert_eq!(
        scan_token(b"'a b", 0, true),
        plain(TokenKind::Unterminated, 4)
    );
    assert_eq!(scan_token(b"@ab cd", 0, true), plain(TokenKind::AtKeyword, 3));
    assert_eq!(scan_token(b"#ab cd", 0, true), plain(TokenKind::Id, 3));
    assert_eq!(scan_token(b"#ab cd", 0, false), plain(TokenKind::Other, 1));
    assert_eq!(scan_token(b".ab cd", 0, true), plain(TokenKind::Class, 3));
    assert_eq!(scan_token(b".5b cd", 0, true), plain(TokenKind::Other, 3));
    assert_eq!(
        scan_token(b":ab cd", 0, true),
        plain(TokenKind::PseudoClass, 3)
    );
    assert_eq!(
        scan_token(b":ab(cd", 0, true),
        plain(TokenKind::PseudoFunction, 4)
    );
    assert_eq!(scan_token(b":ab(cd", 0, false), plain(TokenKind::Other, 1));
    assert_eq!(scan_token(b"(", 0, true), plain(TokenKind::LeftParenthesis, 1));
    assert_eq!(
        scan_token(b")", 0, true),
        plain(TokenKind::RightParenthesis, 1)
    );
    assert_eq!(scan_token(b",", 0, true), plain(TokenKind::Comma, 1));
    assert_eq!(scan_token(b";", 0, true), plain(TokenKind::Semicolon, 1));
    assert_eq!(
        scan_token(b"{", 0, true),
        plain(TokenKind::LeftCurlyBracket, 1)
    );
    assert_eq!(
        scan_token(b"}", 0, true),
        plain(TokenKind::RightCurlyBracket, 1)
    );
    assert_eq!(scan_token(b"<!--a", 0, true), plain(TokenKind::Other, 4));
    assert_eq!(scan_token(b"<!-a", 0, true), plain(TokenKind::Other, 1));
    assert_eq!(scan_token(b"-->a", 0, true), plain(TokenKind::Other, 3));
    assert_eq!(scan_token(b"--a b", 0, true), plain(TokenKind::Ident, 3));
    assert_eq!(scan_token(b"-5px b", 0, true), plain(TokenKind::Other, 4));
    assert_eq!(scan_token(b"\\a( b", 0, true), plain(TokenKind::Function, 3));
    assert_eq!(scan_token(b"\\\na", 0, true), plain(TokenKind::Other, 1));
    assert_eq!(
        scan_token(b"url( a b ) c", 0, true),
        Token {
            kind: TokenKind::Url,
            end: 10,
            content_start: 5,
            content_end: 8
        }
    );
    assert_eq!(
        scan_token(b"url( \"a\" )", 0, true),
        plain(TokenKind::Function, 4)
    );
}
