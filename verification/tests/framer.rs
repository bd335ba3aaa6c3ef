use prettydiff::framer::{number_in, FrameError, Framer};
use prettydiff::hunk::Hunk;
use prettydiff::style;
use prettydiff::style::Style;
use prettydiff::style_opts::StyleOpts;
use prettydiff::text::{group, parse_number};
use prettydiff::tokeniser::Tokeniser;

fn run(framer: &mut Framer, lines: &[&str]) -> Result<String, FrameError> {
    let mut tokeniser = Tokeniser::new();
    let mut out = Vec::new();
    for l in lines {
        framer.feed(l.as_bytes(), &mut tokeniser, &mut out)?;
    }
    framer.finish(&mut tokeniser, &mut out)?;
    Ok(String::from_utf8(out).unwrap())
}

fn shown(left: &[&str], right: &[&str], numbers: [usize; 2], style: &Style) -> String {
    let mut hunk = Hunk::new();
    hunk.left = left.iter().map(|l| l.as_bytes().to_vec()).collect();
    hunk.right = right.iter().map(|l| l.as_bytes().to_vec()).collect();
    let mut tokeniser = Tokeniser::new();
    let mut out = Vec::new();
    hunk.print(&mut out, &mut tokeniser, numbers, None, style, &StyleOpts::new());
    String::from_utf8(out).unwrap()
}

#[test]
fn plain_lines_go_out_as_they_come() {
    let mut framer = Framer::new(true, false, Style::default(), StyleOpts::new());
    let lines = ["@@ -1 +1 @@\n", "-a\n", "+b\n", "\x1b[1mbold\n"];
    assert_eq!(run(&mut framer, &lines), Ok(lines.concat()));
    assert!(framer.seen);
    assert!(framer.hunk.is_none());
}

#[test]
fn no_line_no_output() {
    let mut framer = Framer::new(false, false, Style::default(), StyleOpts::new());
    assert_eq!(run(&mut framer, &[]), Ok(String::new()));
    assert!(!framer.seen);
}

#[test]
fn unified_hunk() {
    let style = Style::default();
    let mut framer = Framer::new(false, false, style.clone(), StyleOpts::new());
    let out = run(&mut framer, &["@@ -3,2 +5,2 @@ fn main()\n", " same\n", "-a b c\n", "+a B c\n"]).unwrap();
    let header = format!(
        "{}@@ -3,2 +5,2 @@ {}fn main(){}\n",
        style::HEADER,
        style::CONTEXT,
        style::RESET
    );
    let body = shown(&["same\n", "a b c\n"], &["same\n", "a B c\n"], [3, 5], &style);
    assert_eq!(out, format!("{}{}", header, body));
    assert!(framer.unified);
    assert_eq!((framer.line_numbers.left, framer.line_numbers.right), (3, 5));
}

#[test]
fn unified_header_without_context() {
    let mut framer = Framer::new(false, false, Style::default(), StyleOpts::new());
    let out = run(&mut framer, &["@@ -1 +1 @@\n"]).unwrap();
    assert_eq!(out, format!("{}@@ -1 +1 @@{}\n", style::HEADER, style::RESET));
}

#[test]
fn styles_are_taken_from_the_lines() {
    let style = Style::default();
    let mut framer = Framer::new(false, false, style.clone(), StyleOpts::new());
    let out = run(&mut framer, &["\x1b[36m@@ -1 +1 @@\x1b[m\n", "\x1b[31m-a\x1b[m\n", "\x1b[32m+b\x1b[m\n"]).unwrap();
    let header = format!("{}@@ -1 +1 @@{}\n", style::HEADER, style::RESET);
    assert_eq!(out, format!("{}{}", header, shown(&["a\n"], &["b\n"], [1, 1], &style)));
}

#[test]
fn traditional_hunk() {
    let style = Style::default();
    let mut framer = Framer::new(false, false, style.clone(), StyleOpts::new());
    let out = run(&mut framer, &["2c4\n", "< old\n", "---\n", "> new\n"]).unwrap();
    let header = format!("{}2c4\n{}", style::HEADER, style::RESET);
    assert_eq!(out, format!("{}{}", header, shown(&["old\n"], &["new\n"], [2, 4], &style)));
    assert!(!framer.unified);
}

#[test]
fn header_of_two_files() {
    let mut framer = Framer::new(false, false, Style::default(), StyleOpts::new());
    let out = run(&mut framer, &["diff --git a/x.rs b/y.rs\n"]).unwrap();
    assert_eq!(
        out,
        format!(
            "{}diff --git {}{}a/x.rs {}b/y.rs{}\n",
            style::DIFF_HEADER,
            style::RESET,
            style::FILENAME_HEADER_LEFT,
            style::FILENAME_HEADER_RIGHT,
            style::RESET
        )
    );
    let mut framer = Framer::new(false, false, Style::default(), StyleOpts::new());
    let out = run(&mut framer, &["diff -r one two\n"]).unwrap();
    assert_eq!(
        out,
        format!(
            "{}diff -r {}{}one {}two{}\n",
            style::DIFF_HEADER,
            style::RESET,
            style::FILENAME_HEADER_LEFT,
            style::FILENAME_HEADER_RIGHT,
            style::RESET
        )
    );
}

#[test]
fn names_of_the_files() {
    let style = Style::default();
    let opts = StyleOpts::new();
    let mut framer = Framer::new(false, false, style.clone(), opts.clone());
    let out = run(&mut framer, &["--- a/old.txt\t2020\n", "+++ b/new.txt\t2021\n"]).unwrap();
    let mut tokeniser = Tokeniser::new();
    let mut expected = Vec::new();
    Hunk::print_filename(
        &mut expected,
        &mut tokeniser,
        Some(b"old.txt"),
        Some(b"new.txt"),
        (&opts.filename_sign_left, &opts.filename_sign_right, &opts.filename_sign),
        &style,
        &opts,
    );
    assert_eq!(out, String::from_utf8(expected).unwrap());
    assert_eq!(framer.filename, Some(b"old.txt".to_vec()));
}

#[test]
fn commit_and_other_lines() {
    let mut framer = Framer::new(false, false, Style::default(), StyleOpts::new());
    let out = run(&mut framer, &["commit 0123abc\n", "Author: me\n"]).unwrap();
    assert_eq!(out, format!("{}commit 0123abc\n{}Author: me\n", style::COMMIT, style::RESET));
}

#[test]
fn a_line_without_a_newline_at_its_end() {
    let mut framer = Framer::new(false, false, Style::default(), StyleOpts::new());
    let mut tokeniser = Tokeniser::new();
    let mut out = Vec::new();
    for l in ["@@ -1 +1 @@\n", "-a\n", "\\ No newline at end of file\n", "+a\n"] {
        framer.feed(l.as_bytes(), &mut tokeniser, &mut out).unwrap();
    }
    let hunk = framer.hunk.as_ref().unwrap();
    assert_eq!(hunk.left, vec![b"a".to_vec()]);
    assert_eq!(hunk.right, vec![b"a\n".to_vec()]);
}

#[test]
fn an_empty_line_ends_the_hunk() {
    let style = Style::default();
    let mut framer = Framer::new(false, false, style.clone(), StyleOpts::new());
    let mut tokeniser = Tokeniser::new();
    let mut out = Vec::new();
    for l in ["@@ -1 +1 @@\n", "-a\n", "+b\n", "\n"] {
        framer.feed(l.as_bytes(), &mut tokeniser, &mut out).unwrap();
    }
    assert!(framer.hunk.is_none());
    let header = format!("{}@@ -1 +1 @@{}\n", style::HEADER, style::RESET);
    assert_eq!(
        String::from_utf8(out).unwrap(),
        format!("{}{}", header, shown(&["a\n"], &["b\n"], [1, 1], &style))
    );
}

#[test]
fn lines_of_a_combined_diff() {
    let opts = StyleOpts::new();
    let mut framer = Framer::new(false, false, Style::default(), opts.clone());
    let mut tokeniser = Tokeniser::new();
    let mut out = Vec::new();
    for l in ["@@@ -1,2 -1,2 +7,3 @@@\n", "- ours\n", " -theirs\n", "++both\n", "++more\n"] {
        framer.feed(l.as_bytes(), &mut tokeniser, &mut out).unwrap();
    }
    let hunk = framer.hunk.as_ref().unwrap();
    assert_eq!(hunk.left, vec![b"ours\n".to_vec(), b"theirs\n".to_vec()]);
    assert_eq!(hunk.right, vec![b"both\n".to_vec(), b"more\n".to_vec()]);
    let markers = framer.merge_markers.as_ref().unwrap();
    assert_eq!(markers.get(0, 1), Some(&opts.lineno_our_bar));
    assert_eq!(markers.get(0, 2), Some(&opts.lineno_their_bar));
    assert_eq!(markers.get(1, 7), Some(&opts.lineno_merge_bar));
    assert_eq!(markers.get(1, 8), Some(&opts.lineno_merge_bar));
    assert_eq!(markers.get(1, 9), None);
    assert_eq!(
        String::from_utf8(out).unwrap(),
        format!("{}@@@ -1,2 -1,2 +7,3 @@@ {}{}\n", style::HEADER, style::CONTEXT, style::RESET)
    );
}

#[test]
fn context_as_it_comes() {
    let style = Style::default();
    let mut framer = Framer::new(false, true, style.clone(), StyleOpts::new());
    let out = run(&mut framer, &["@@ -4 +6 @@\n", " kept  \n", "-a\n"]).unwrap();
    let header = format!("{}@@ -4 +6 @@{}\n", style::HEADER, style::RESET);
    let numbers = String::from_utf8(style::format_lineno(
        [4, 6],
        Some(style::LINENO.as_bytes()),
        Some(style::LINENO.as_bytes()),
        None,
    ))
    .unwrap();
    // The style of white space at the end is written with its bracket escaped.
    let context = format!("{}{}kept\x1b\\[2;7m  \n", numbers, style::DIFF_CONTEXT);
    assert_eq!(out, format!("{}{}{}", header, context, shown(&["a\n"], &[], [5, 7], &style)));
}

#[test]
fn numbers_that_are_none() {
    let mut framer = Framer::new(false, false, Style::default(), StyleOpts::new());
    let mut tokeniser = Tokeniser::new();
    let mut out = Vec::new();
    let r = framer.feed(b"@@ -99999999999999999999999999 +1 @@\n", &mut tokeniser, &mut out);
    assert_eq!(r, Err(FrameError::BadNumber));
    assert_eq!(
        String::from_utf8(out).unwrap(),
        format!("{}@@ -99999999999999999999999999 +1 @@{}\n", style::HEADER, style::RESET)
    );
    let mut framer = Framer::new(false, false, Style::default(), StyleOpts::new());
    let r = run(&mut framer, &["@@ -1 +\u{0663} @@\n"]);
    assert_eq!(r, Err(FrameError::BadNumber));
}

#[test]
fn line_numbers_beyond_the_largest() {
    let mut framer = Framer::new(false, false, Style::default(), StyleOpts::new());
    let header = format!("@@ -{} +1 @@\n", usize::MAX);
    let r = run(&mut framer, &[&header, "-a\n", "+b\n"]);
    assert_eq!(r, Err(FrameError::TooManyLines));
}

#[test]
fn numbers_from_digits() {
    assert_eq!(parse_number(b"0"), Some(0));
    assert_eq!(parse_number(b"007"), Some(7));
    assert_eq!(parse_number(b"1234567890"), Some(1234567890));
    assert_eq!(parse_number(usize::MAX.to_string().as_bytes()), Some(usize::MAX));
    assert_eq!(parse_number(format!("{}0", usize::MAX).as_bytes()), None);
    assert_eq!(parse_number(b"18446744073709551616"), None);
    assert_eq!(parse_number(b""), None);
    assert_eq!(parse_number(b"+1"), None);
    assert_eq!(parse_number(b"1a"), None);
}

#[test]
fn groups_of_a_match() {
    let text = b"abcdef";
    let groups = vec![Some((0, 6)), Some((1, 3)), None, Some((4, 9)), Some((3, 2))];
    assert_eq!(group(text, &groups, 0), Some(&b"abcdef"[..]));
    assert_eq!(group(text, &groups, 1), Some(&b"bc"[..]));
    assert_eq!(group(text, &groups, 2), None);
    assert_eq!(group(text, &groups, 3), None);
    assert_eq!(group(text, &groups, 4), None);
    assert_eq!(group(text, &groups, 5), None);
    assert_eq!(number_in(b"x12y", &vec![Some((1, 3))], 0), Ok(12));
    assert_eq!(number_in(b"x12y", &vec![Some((0, 3))], 0), Err(FrameError::BadNumber));
    assert_eq!(number_in(b"x12y", &vec![None], 0), Err(FrameError::BadNumber));
}

#[test]
fn a_file_that_was_renamed() {
    let style = Style::default();
    let opts = StyleOpts::new();
    let mut framer = Framer::new(false, false, style.clone(), opts.clone());
    let header = run(&mut framer, &["diff --git a/x.rs b/y.rs\n"]).unwrap();
    let mut framer = Framer::new(false, false, style.clone(), opts.clone());
    let out = run(
        &mut framer,
        &["diff --git a/x.rs b/y.rs\n", "rename from x.rs\n", "rename to y.rs\n"],
    )
    .unwrap();
    let mut tokeniser = Tokeniser::new();
    let mut names = Vec::new();
    Hunk::print_filename(
        &mut names,
        &mut tokeniser,
        Some(b"x.rs\n"),
        Some(b"y.rs\n"),
        (b"rename from\t", b"rename to\t", b"rename from/to\t"),
        &style,
        &opts,
    );
    assert_eq!(out, format!("{}{}", header, String::from_utf8(names).unwrap()));
    assert_eq!(framer.filename, Some(b"x.rs\n".to_vec()));
    assert!(framer.hunk.as_ref().unwrap().is_empty());
}

#[test]
fn the_line_of_the_blobs_ends_the_hunk() {
    let mut framer = Framer::new(false, false, Style::default(), StyleOpts::new());
    let header = run(&mut framer, &["diff --git a/x.rs b/y.rs\n"]).unwrap();
    let mut framer = Framer::new(false, false, Style::default(), StyleOpts::new());
    let out = run(&mut framer, &["diff --git a/x.rs b/y.rs\n", "index 12ab..34cd 100644\n"]).unwrap();
    assert_eq!(out, format!("{}index 12ab..34cd 100644\n", header));
    assert!(framer.hunk.is_none());
}

#[test]
fn any_other_line_ends_the_hunk_and_begins_another() {
    let style = Style::default();
    let mut framer = Framer::new(false, false, style.clone(), StyleOpts::new());
    let out = run(&mut framer, &["@@ -1 +1 @@\n", "-a b\n", "+a c\n", "\x1b[1mMore\x1b[0m\n"]).unwrap();
    let header = format!("{}@@ -1 +1 @@{}\n", style::HEADER, style::RESET);
    let body = shown(&["a b\n"], &["a c\n"], [1, 1], &style);
    assert_eq!(out, format!("{}{}More\n", header, body));
    assert!(framer.hunk.as_ref().unwrap().is_empty());
}

#[test]
fn the_sides_of_a_traditional_hunk() {
    let style = Style::default();
    let mut framer = Framer::new(false, false, style.clone(), StyleOpts::new());
    let mut tokeniser = Tokeniser::new();
    let mut out = Vec::new();
    for l in ["2c2\n", "< one two\n", "---\n", "> one three\n"] {
        framer.feed(l.as_bytes(), &mut tokeniser, &mut out).unwrap();
    }
    let hunk = framer.hunk.as_ref().unwrap();
    assert_eq!(hunk.left, vec![b"one two\n".to_vec()]);
    assert_eq!(hunk.right, vec![b"one three\n".to_vec()]);
    assert_eq!(framer.side, 1);
    assert!(!framer.unified);
    assert_eq!((framer.line_numbers.left, framer.line_numbers.right), (2, 2));
}

#[test]
fn a_line_of_context_goes_to_both_sides() {
    let mut framer = Framer::new(false, false, Style::default(), StyleOpts::new());
    let mut tokeniser = Tokeniser::new();
    let mut out = Vec::new();
    for l in ["@@ -4,2 +4,2 @@\n", "-old\n", " kept\n"] {
        framer.feed(l.as_bytes(), &mut tokeniser, &mut out).unwrap();
    }
    let before = out.len();
    let hunk = framer.hunk.as_ref().unwrap();
    assert_eq!(hunk.left, vec![b"old\n".to_vec(), b"kept\n".to_vec()]);
    assert_eq!(hunk.right, vec![b"kept\n".to_vec()]);
    assert_eq!(framer.side, 0);
    framer.feed(b"+new\n", &mut tokeniser, &mut out).unwrap();
    assert_eq!(out.len(), before);
    assert_eq!(framer.side, 1);
}

#[test]
fn a_hunk_that_ends_at_a_header_is_shown_with_its_bars() {
    let style = Style::default();
    let opts = StyleOpts::new();
    let mut framer = Framer::new(false, false, style.clone(), opts.clone());
    let mut tokeniser = Tokeniser::new();
    let mut out = Vec::new();
    for l in ["@@@ -1,2 -1,2 +7,3 @@@\n", "- ours\n", "++both\n"] {
        framer.feed(l.as_bytes(), &mut tokeniser, &mut out).unwrap();
    }
    let before = out.len();
    // What the hunk is shown as with the bars that were gathered with it.
    let mut hunk = Hunk::new();
    hunk.left = vec![b"ours\n".to_vec()];
    hunk.right = vec![b"both\n".to_vec()];
    let mut expected = Vec::new();
    let mut other = Tokeniser::new();
    hunk.print(&mut expected, &mut other, [1, 7], framer.merge_markers.as_ref(), &style, &opts);
    let mut bare = Vec::new();
    let mut third = Tokeniser::new();
    hunk.print(&mut bare, &mut third, [1, 7], None, &style, &opts);
    assert_ne!(expected, bare);
    framer.feed(b"@@ -9 +9 @@\n", &mut tokeniser, &mut out).unwrap();
    let header = format!("{}@@ -9 +9 @@{}\n", style::HEADER, style::RESET);
    assert_eq!(out[before..].to_vec(), [expected, header.into_bytes()].concat());
    assert!(framer.merge_markers.is_none());
}
