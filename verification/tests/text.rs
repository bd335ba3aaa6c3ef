use prettydiff::style;
use prettydiff::style_opts::StyleOpts;
use prettydiff::text::{escape, replace_all, shell_quote, strip_style};

#[test]
fn replaces_from_left_to_right() {
    assert_eq!(replace_all(b"aaa", b"aa", b"b"), b"ba".to_vec());
    assert_eq!(replace_all(b"abcabc", b"bc", b""), b"aa".to_vec());
    assert_eq!(replace_all(b"abc", b"x", b"y"), b"abc".to_vec());
    assert_eq!(replace_all(b"abc", b"", b"y"), b"abc".to_vec());
    assert_eq!(replace_all(b"", b"a", b"y"), b"".to_vec());
    assert_eq!(replace_all(b"xx", b"x", b"xx"), b"xxxx".to_vec());
    assert_eq!(replace_all(b"ab", b"abc", b"y"), b"ab".to_vec());
}

#[test]
fn quotes_for_the_shell() {
    assert_eq!(shell_quote(b"plain"), b"'plain'".to_vec());
    assert_eq!(shell_quote(b"it's"), b"'it'\\''s'".to_vec());
    assert_eq!(shell_quote(b""), b"''".to_vec());
    assert_eq!(shell_quote(b"''"), b"''\\'''\\'''".to_vec());
}

#[test]
fn strips_styles() {
    assert_eq!(strip_style(b"\x1b[0;31mred\x1b[0m plain", b""), b"red plain".to_vec());
    assert_eq!(strip_style(b"\x1b[mx\x1b[1;2;3m", b"-"), b"-x-".to_vec());
    assert_eq!(strip_style(b"no style", b""), b"no style".to_vec());
    assert_eq!(strip_style(b"\x1b[1mbold", b"$0<"), b"\x1b[1m<bold".to_vec());
    assert_eq!(strip_style(b"\x1b[12", b""), b"\x1b[12".to_vec());
}

#[test]
fn background_follows_every_reset() {
    let mut opts = StyleOpts::new();
    let before = opts.clone();
    opts.insert_background();
    assert_eq!(opts.header, before.header);
    assert_eq!(opts.diff_matching_left, before.diff_matching_left);

    opts.background = b"\x1b[48;5;17m".to_vec();
    opts.insert_background();
    assert_eq!(opts.background, b"\x1b[48;5;17m".to_vec());
    assert_eq!(opts.header, b"\x1b[0m\x1b[48;5;17m\x1b[K\x1b[36m".to_vec());
    assert_eq!(opts.commit, style::COMMIT.as_bytes().to_vec());
    assert_eq!(
        opts.diff_non_matching_left,
        b"\x1b[0m\x1b[48;5;17m\x1b[K\x1b[31m\x1b[1;48;2;80;30;30m".to_vec()
    );
    assert_eq!(opts.filename, b"".to_vec());
}

#[test]
fn background_for_a_line() {
    let mut opts = StyleOpts::new();
    let mut out = b"x".to_vec();
    opts.print_background(&mut out);
    assert_eq!(out, b"x".to_vec());
    opts.background = b"BG".to_vec();
    opts.print_background(&mut out);
    assert_eq!(out, b"xBG\x1b[K".to_vec());
}

#[test]
fn default_palette() {
    let opts = StyleOpts::new();
    assert_eq!(opts.background, b"".to_vec());
    assert_eq!(opts.lineno_left, style::DIFF_LEFT.as_bytes().to_vec());
    assert_eq!(opts.lineno_bar, "\x1b[0;38;5;242m\u{258f}".as_bytes().to_vec());
    assert_eq!(opts.filename_sign_left, b"\x1b[0;31m\x1b[48;5;238m\x1b[7m---\x1b[27m ".to_vec());
    assert_eq!(opts.diff_trailing_ws, b"\x1b[2;7m".to_vec());
}

#[test]
fn escape_is_what_the_pattern_library_makes_of_the_text() {
    for text in ["\x1b[2;7m", "a.b*c", "\\ . + * ? ( ) | [ ] { } ^ $ # & - ~", "plain", "", "é{ü}", "%/!\"e"] {
        assert_eq!(escape(text.as_bytes()), regex::escape(text).into_bytes());
    }
    assert_eq!(escape(b"\x1b[2;7m"), b"\x1b\\[2;7m".to_vec());
}
