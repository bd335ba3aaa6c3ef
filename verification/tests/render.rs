use prettydiff::block_maker::BlockMaker;
use prettydiff::hunk::{print_blocks, Hunk};
use prettydiff::render::{MergeMarkers, Numbering};
use prettydiff::style;
use prettydiff::style::{format_lineno, Style};
use prettydiff::style_opts::StyleOpts;
use prettydiff::tokeniser::Tokeniser;

fn lines(text: &str) -> Vec<Vec<u8>> {
    text.split_inclusive('\n').map(|l| l.as_bytes().to_vec()).collect()
}

fn render(left: &str, right: &str, numbers: [usize; 2], style: &Style, markers: Option<&MergeMarkers>) -> String {
    let mut hunk = Hunk::new();
    hunk.left = lines(left);
    hunk.right = lines(right);
    let mut tokeniser = Tokeniser::new();
    let mut out = Vec::new();
    hunk.print(&mut out, &mut tokeniser, numbers, markers, style, &StyleOpts::new());
    String::from_utf8(out).unwrap()
}

fn numbers(left: usize, right: usize, ls: Option<&str>, rs: Option<&str>, bar: Option<&str>) -> String {
    String::from_utf8(format_lineno(
        [left, right],
        ls.map(|s| s.as_bytes()),
        rs.map(|s| s.as_bytes()),
        bar.map(|s| s.as_bytes()),
    ))
    .unwrap()
}

#[test]
fn line_numbers_in_fields_of_four() {
    assert_eq!(
        numbers(12, 0, None, None, None),
        format!("{}12  {}{}    {} ", style::DIFF_LEFT, style::LINENO_BAR, style::DIFF_RIGHT, style::LINENO_BAR)
    );
    assert_eq!(
        numbers(0, 7, Some("L"), Some("R"), Some("|")),
        "L    |R7   | "
    );
    assert_eq!(numbers(1234, 12345, Some(""), Some(""), Some("")), "123412345 ");
    assert_eq!(numbers(10, 100, Some(""), Some(""), Some("/")), "10  /100 / ");
    assert_eq!(
        numbers(usize::MAX, 1, Some(""), Some(""), Some("")),
        format!("{}1    ", usize::MAX)
    );
}

#[test]
fn labels_in_place_of_numbers() {
    let labels = Numbering::Labels { left: b"L".to_vec(), right: b"R".to_vec(), both: b"B".to_vec() };
    assert_eq!(labels.render([3, 0], None, None, None), b"L".to_vec());
    assert_eq!(labels.render([0, 3], None, None, None), b"R".to_vec());
    assert_eq!(labels.render([3, 3], None, None, None), b"B".to_vec());
    assert_eq!(labels.render([0, 0], None, None, None), b"L".to_vec());
    assert_eq!(
        Numbering::Numbers.render([1, 2], None, None, None),
        format_lineno([1, 2], None, None, None)
    );
}

#[test]
fn merge_markers_keep_the_last_bar() {
    let mut m = MergeMarkers::new();
    assert_eq!(m.get(0, 5), None);
    m.insert(0, 5, b"(".to_vec());
    m.insert(1, 5, b")".to_vec());
    m.insert(0, 5, b"|".to_vec());
    assert_eq!(m.get(0, 5), Some(&b"|".to_vec()));
    assert_eq!(m.get(1, 5), Some(&b")".to_vec()));
    assert_eq!(m.get(1, 6), None);
}

#[test]
fn context_of_equal_sides() {
    let style = Style::default();
    let lineno = |n: usize| numbers(n, n, Some(style::LINENO), Some(style::LINENO), None);
    let out = render("one\ntwo \n", "one\ntwo \n", [3, 3], &style, None);
    // White space before a newline is marked; the newline itself is not.
    let expected = format!(
        "{}{}one\n{}{}two{} \n",
        lineno(3),
        style::DIFF_CONTEXT,
        lineno(4),
        style::DIFF_CONTEXT,
        style::DIFF_TRAILING_WS,
    );
    assert_eq!(out, expected);
}

#[test]
fn context_with_signs_and_without_numbers() {
    let mut style = Style::default();
    style.signs = true;
    style.line_numbers = false;
    let out = render("x\n", "x\n", [1, 1], &style, None);
    assert_eq!(
        out,
        format!("{}{}x\n", style::SIGN_BOTH, style::DIFF_CONTEXT)
    );
}

#[test]
fn one_word_changed_shown_in_one_line() {
    let mut style = Style::default();
    style.inline = true;
    let out = render("a b c\n", "a B c\n", [1, 1], &style, None);
    let expected = format!(
        "{inl}{num}{inl}a {del}b{ins}B{inl} c\n",
        inl = style::DIFF_MATCHING_INLINE,
        num = numbers(1, 1, None, None, None),
        del = style::DIFF_NON_MATCHING_LEFT,
        ins = style::DIFF_NON_MATCHING_RIGHT,
    );
    assert_eq!(out, expected);
}

#[test]
fn one_word_changed_shown_side_by_side() {
    let style = Style::default();
    let out = render("a b c\n", "a B c\n", [5, 8], &style, None);
    let expected = format!(
        "{ml}{numl}{ml}a {del}b{ml} c\n{mr}{numr}{mr}a {ins}B{mr} c\n",
        ml = style::DIFF_MATCHING_LEFT,
        mr = style::DIFF_MATCHING_RIGHT,
        numl = numbers(5, 0, None, None, None),
        numr = numbers(0, 8, None, None, None),
        del = style::DIFF_NON_MATCHING_LEFT,
        ins = style::DIFF_NON_MATCHING_RIGHT,
    );
    assert_eq!(out, expected);
}

#[test]
fn removed_words_are_marked_on_the_other_side() {
    let style = Style::default();
    let out = render("foo(x, y)\n", "foo(x)\n", [1, 1], &style, None);
    let expected = format!(
        "{ml}{numl}{ml}foo(x{del}, y{ml})\n{mr}{numr}{mr}foo(x{mr}{mark}){mr}\n",
        ml = style::DIFF_MATCHING_LEFT,
        mr = style::DIFF_MATCHING_RIGHT,
        numl = numbers(1, 0, None, None, None),
        numr = numbers(0, 1, None, None, None),
        del = style::DIFF_NON_MATCHING_LEFT,
        mark = style::DIFF_INSERT_RIGHT,
    );
    assert_eq!(out, expected);
}

#[test]
fn signs_before_each_side() {
    let mut style = Style::default();
    style.signs = true;
    style.line_numbers = false;
    let out = render("abc\n", "xyz\n", [1, 1], &style, None);
    let expected = format!(
        "{del}{sl}{del}abc\n{ins}{sr}{ins}xyz\n",
        del = style::DIFF_NON_MATCHING_LEFT,
        ins = style::DIFF_NON_MATCHING_RIGHT,
        sl = style::SIGN_LEFT,
        sr = style::SIGN_RIGHT,
    );
    assert_eq!(out, expected);
}

#[test]
fn bar_of_a_merge_after_the_number() {
    let style = Style::default();
    let mut markers = MergeMarkers::new();
    markers.insert(1, 4, b"<bar>".to_vec());
    let out = render("", "x\n", [4, 4], &style, Some(&markers));
    let expected = format!(
        "{ins}{num}{ins}x\n",
        ins = style::DIFF_NON_MATCHING_RIGHT,
        num = numbers(0, 4, None, None, Some("<bar>")),
    );
    assert_eq!(out, expected);
}

#[test]
fn line_numbers_follow_the_lines() {
    let mut style = Style::default();
    style.inline = true;
    let out = render("a\nb\nc\n", "a\nB\nc\n", [10, 20], &style, None);
    let context = |n: usize, m: usize| numbers(n, m, Some(style::LINENO), Some(style::LINENO), None);
    let expected = format!(
        "{c1}{ctx}a\n{del}{n2}{del}b\n{ins}{n3}{ins}B\n{c4}{ctx}c\n",
        c1 = context(10, 20),
        n2 = numbers(11, 0, None, None, None),
        n3 = numbers(0, 21, None, None, None),
        c4 = context(12, 22),
        ctx = style::DIFF_CONTEXT,
        del = style::DIFF_NON_MATCHING_LEFT,
        ins = style::DIFF_NON_MATCHING_RIGHT,
    );
    assert_eq!(out, expected);
}

#[test]
fn nothing_is_shown_of_an_empty_hunk() {
    let style = Style::default();
    assert_eq!(render("", "", [1, 1], &style, None), "");
    let mut tokeniser = Tokeniser::new();
    let mut out = b"kept".to_vec();
    Hunk::new().print(&mut out, &mut tokeniser, [1, 1], None, &style, &StyleOpts::new());
    assert_eq!(out, b"kept".to_vec());
    assert_eq!(tokeniser.max_token().0, 5);
}

#[test]
fn blocks_are_shown_one_after_the_other() {
    let mut hunk = Hunk::new();
    hunk.left = lines("x = 1\ny = 2\n");
    hunk.right = lines("y = 2\nx = 1\n");
    let mut tokeniser = Tokeniser::new();
    let maker = BlockMaker::new(&hunk, [1, 1], &mut tokeniser);
    let blocks = maker.make_block().split_block();
    let style = Style::default();
    let opts = StyleOpts::new();
    let mut all = Vec::new();
    print_blocks(&blocks, &mut all, None, &style, &opts, &Numbering::Numbers);
    let mut each = Vec::new();
    for b in blocks.iter() {
        b.print(&mut each, None, &style, &opts, &Numbering::Numbers);
    }
    assert_eq!(all, each);
    assert!(!all.is_empty());
}

#[test]
fn names_of_files() {
    let mut tokeniser = Tokeniser::new();
    let style = Style::default();
    let opts = StyleOpts::new();
    let mut out = Vec::new();
    Hunk::print_filename(
        &mut out,
        &mut tokeniser,
        Some(b"a.txt"),
        Some(b"a.txt"),
        (b"--- ", b"+++ ", b"### "),
        &style,
        &opts,
    );
    // Each side is shown by itself, with its own label.
    let expected = format!(
        "{l}--- {l}a.txt\n{r}+++ {r}a.txt\n",
        l = style::FILENAME_HEADER_LEFT,
        r = style::FILENAME_HEADER_RIGHT,
    );
    assert_eq!(String::from_utf8(out).unwrap(), expected);
}

#[test]
fn names_of_files_that_differ() {
    let mut tokeniser = Tokeniser::new();
    let style = Style::default();
    let opts = StyleOpts::new();
    let mut out = Vec::new();
    Hunk::print_filename(&mut out, &mut tokeniser, None, Some(b"new\n"), (b"-", b"+", b"#"), &style, &opts);
    let text = String::from_utf8(out).unwrap();
    assert!(text.contains("new"));
    assert!(text.contains(style::FILENAME_NON_MATCHING_RIGHT));
    assert!(text.ends_with("\n"));
}

#[test]
fn white_space_at_the_end_of_each_line_is_marked() {
    let style = Style::default();
    let lineno = |n: usize| numbers(n, n, Some(style::LINENO), Some(style::LINENO), None);
    let out = render("a \t\nb c\n \n", "a \t\nb c\n \n", [1, 1], &style, None);
    let expected = format!(
        "{n1}{ctx}a{tws} {tws}\t\n{n2}{ctx}b c\n{n3}{ctx}{tws} \n",
        n1 = lineno(1),
        n2 = lineno(2),
        n3 = lineno(3),
        ctx = style::DIFF_CONTEXT,
        tws = style::DIFF_TRAILING_WS,
    );
    assert_eq!(out, expected);
}

#[test]
fn white_space_at_the_end_of_a_changed_line_is_marked() {
    let style = Style::default();
    let out = render("x \n", "y \n", [1, 1], &style, None);
    assert_eq!(out.matches(style::DIFF_TRAILING_WS).count(), 2);
    assert!(out.contains(&format!("{} ", style::DIFF_TRAILING_WS)));
    assert!(!out.contains(&format!("{}\n", style::DIFF_TRAILING_WS)));
}
