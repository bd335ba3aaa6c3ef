use prettydiff::block::Block;
use prettydiff::block_maker::BlockMaker;
use prettydiff::hunk::Hunk;
use prettydiff::line_differ::LineDiffer;
use prettydiff::pair::Span;
use prettydiff::tokeniser::Tokeniser;

fn lines(text: &str) -> Vec<Vec<u8>> {
    text.split_inclusive('\n').map(|l| l.as_bytes().to_vec()).collect()
}

fn text(words: &[Vec<u8>]) -> String {
    String::from_utf8(words.concat()).unwrap()
}

fn hunk_of(left: &str, right: &str) -> Hunk {
    let mut hunk = Hunk::new();
    hunk.left = lines(left);
    hunk.right = lines(right);
    hunk
}

fn describe(blocks: &[Block]) -> Vec<Vec<(bool, String, String)>> {
    blocks
        .iter()
        .map(|b| b.parts.iter().map(|p| (p.matches, text(p.get(0)), text(p.get(1)))).collect())
        .collect()
}

fn diff(left: &str, right: &str) -> Vec<Vec<(bool, String, String)>> {
    let hunk = hunk_of(left, right);
    let mut tokeniser = Tokeniser::new();
    let maker = BlockMaker::new(&hunk, [1, 1], &mut tokeniser);
    let blocks = maker.make_block().split_block();
    describe(&blocks)
}

fn part(matches: bool, left: &str, right: &str) -> (bool, String, String) {
    (matches, left.to_string(), right.to_string())
}

#[test]
fn one_word_changed_in_a_line() {
    assert_eq!(
        diff("a b c\n", "a B c\n"),
        vec![vec![part(true, "a ", "a "), part(false, "b", "B"), part(true, " c\n", " c\n")]]
    );
}

#[test]
fn words_removed_within_a_line() {
    assert_eq!(
        diff("foo(x, y)\n", "foo(x)\n"),
        vec![vec![part(true, "foo(x", "foo(x"), part(false, ", y", ""), part(true, ")\n", ")\n")]]
    );
}

#[test]
fn lines_indented_anew() {
    assert_eq!(
        diff("  a\n  b\n  c\n", "    a\n    b\n    c\n"),
        vec![vec![
            part(false, "", "  "),
            part(true, "  a\n", "  a\n"),
            part(false, "", "  "),
            part(true, "  b\n", "  b\n"),
            part(false, "", "  "),
            part(true, "  c\n", "  c\n"),
        ]]
    );
}

#[test]
fn two_lines_swapped() {
    assert_eq!(
        diff("x = 1\ny = 2\n", "y = 2\nx = 1\n"),
        vec![
            vec![part(false, "", "y = 2\n")],
            vec![part(true, "x = 1\n", "x = 1\n")],
            vec![part(false, "y = 2\n", "")],
        ]
    );
}

#[test]
fn small_match_between_changes_is_squeezed() {
    assert_eq!(
        diff("if (a) { f(); }\n", "if (b) { g(); }\n"),
        vec![vec![
            part(true, "if (", "if ("),
            part(false, "a) { f", "b) { g"),
            part(true, "(); }\n", "(); }\n"),
        ]]
    );
}

#[test]
fn nothing_in_common_is_one_part() {
    let hunk = hunk_of("abc\n", "xyz\n");
    let mut tokeniser = Tokeniser::new();
    let maker = BlockMaker::new(&hunk, [1, 1], &mut tokeniser);
    let blocks = maker.make_block().split_block();
    assert_eq!(describe(&blocks), vec![vec![part(false, "abc\n", "xyz\n")]]);
    let score = blocks[0].score();
    assert!(score.is_zero());
    assert_eq!((score.matched, score.total), (0, 2));
}

#[test]
fn identical_sides_give_one_matching_part() {
    assert_eq!(
        diff("same\nlines\nhere\n", "same\nlines\nhere\n"),
        vec![vec![part(true, "same\nlines\nhere\n", "same\nlines\nhere\n")]]
    );
    assert_eq!(diff("one\n", "one\n"), vec![vec![part(true, "one\n", "one\n")]]);
    assert_eq!(diff("a b\n", "a b\n"), vec![vec![part(true, "a b\n", "a b\n")]]);
}

#[test]
fn one_identical_line_is_one_matching_part() {
    for line in ["    a b\n", "a a\n", "x  y x\n", "\n", "   \n", "x", "  x  ", "\t\tfoo(a, a);\n", "   "] {
        assert_eq!(diff(line, line), vec![vec![part(true, line, line)]]);
    }
}

#[test]
fn sides_without_lines_give_a_block_without_parts() {
    assert_eq!(diff("", ""), vec![Vec::<(bool, String, String)>::new()]);
}

#[test]
fn identical_sides_are_whole_lines() {
    let hunk = hunk_of("same\nlines\n", "same\nlines\n");
    let mut tokeniser = Tokeniser::new();
    let maker = BlockMaker::new(&hunk, [7, 9], &mut tokeniser);
    let blocks = maker.make_block().split_block();
    assert_eq!(blocks.len(), 1);
    assert_eq!(blocks[0].parts.len(), 1);
    let p = &blocks[0].parts[0];
    assert!(p.matches && p.whole_line());
    assert_eq!((p.slices.left.start, p.slices.left.end), (0, maker.word_count(0)));
    assert_eq!((p.slices.right.start, p.slices.right.end), (0, maker.word_count(1)));
    assert_eq!((p.first_lineno(0), p.last_lineno(0)), (7, 8));
    assert_eq!((p.first_lineno(1), p.last_lineno(1)), (9, 10));
    assert!(blocks[0].perfect());
}

#[test]
fn pure_insertion_is_one_part_with_empty_left() {
    assert_eq!(diff("", "new line\n"), vec![vec![part(false, "", "new line\n")]]);
    assert_eq!(diff("", "two\nlines\n"), vec![vec![part(false, "", "two\nlines\n")]]);
}

#[test]
fn pure_deletion_is_one_part_with_empty_right() {
    assert_eq!(diff("old line\n", ""), vec![vec![part(false, "old line\n", "")]]);
}

#[test]
fn parts_cover_all_words_and_touch() {
    let cases = [
        ("a b c\n", "a B c\n"),
        ("foo(x, y)\n", "foo(x)\n"),
        ("x = 1\ny = 2\n", "y = 2\nx = 1\n"),
        ("one\ntwo\nthree\nfour\n", "one\nTWO\nthree\n4\nfive\n"),
        ("", "x\n"),
        ("fn main() {\n    let a = 1;\n}\n", "fn main() {\n    let b = 2;\n    let a = 1;\n}\n"),
    ];
    for (l, r) in cases {
        let hunk = hunk_of(l, r);
        let mut tokeniser = Tokeniser::new();
        let maker = BlockMaker::new(&hunk, [1, 1], &mut tokeniser);
        let block = maker.make_block();
        let mut at = (0, 0);
        for p in block.parts.iter() {
            assert_eq!((p.slices.left.start, p.slices.right.start), at);
            assert!(p.slices.left.start <= p.slices.left.end);
            assert!(p.slices.right.start <= p.slices.right.end);
            assert!(!(p.is_empty(0) && p.is_empty(1)));
            if p.matches {
                assert_eq!(p.get(0), p.get(1));
            }
            at = (p.slices.left.end, p.slices.right.end);
        }
        assert_eq!(at, (maker.word_count(0), maker.word_count(1)));
        let blocks = block.split_block();
        let mut at = (0, 0);
        for b in blocks.iter() {
            for p in b.parts.iter() {
                assert_eq!((p.slices.left.start, p.slices.right.start), at);
                assert!(!(p.is_empty(0) && p.is_empty(1)));
                if p.matches {
                    assert_eq!(p.get(0), p.get(1));
                }
                at = (p.slices.left.end, p.slices.right.end);
            }
        }
        assert_eq!(at, (maker.word_count(0), maker.word_count(1)));
    }
}

#[test]
fn run_of_lines_that_were_only_indented_anew() {
    // The run of equal lines in the middle is, but for its indentation, the line
    // before it on the left and the line after it on the right.
    let hunk = hunk_of("  }\n}\n}\nx\n", "y\n}\n}\n  }\n");
    let mut tokeniser = Tokeniser::new();
    let maker = BlockMaker::new(&hunk, [1, 1], &mut tokeniser);
    let runs = LineDiffer::new(&maker).get_matching_blocks();
    assert_eq!(runs, vec![(Span::new(4, 8), Span::new(2, 6))]);
    assert!(maker.reindented(runs[0].0, runs[0].1));
    // The words of the run are then compared anew: the parts still cover both
    // sides, and those that match hold the same words.
    let block = maker.make_block();
    let mut at = (0, 0);
    for p in block.parts.iter() {
        assert_eq!((p.slices.left.start, p.slices.right.start), at);
        assert!(!p.matches || p.get(0) == p.get(1));
        at = (p.slices.left.end, p.slices.right.end);
    }
    assert_eq!(at, (10, 10));
}

#[test]
fn run_of_lines_between_other_lines() {
    let hunk = hunk_of("{\n}\n}\nend\n", "start\n}\n}\n}\n");
    let mut tokeniser = Tokeniser::new();
    let maker = BlockMaker::new(&hunk, [1, 1], &mut tokeniser);
    let runs = LineDiffer::new(&maker).get_matching_blocks();
    assert_eq!(runs, vec![(Span::new(2, 6), Span::new(2, 6))]);
    assert!(!maker.reindented(runs[0].0, runs[0].1));
    let block = maker.make_block();
    assert!(block.parts.iter().any(|p| p.matches
        && p.slices.left == Span::new(2, 6)
        && p.slices.right == Span::new(2, 6)));
}

#[test]
fn blocks_at_or_above_the_cutoff_become_one() {
    // Two equal lines, which are perfect, and a line of which three words in four
    // are the same.
    let blocks = diff("a\nb\nc d e x\n", "a\nb\nc d e y\n");
    assert_eq!(blocks.len(), 1);
    assert_eq!(blocks[0][0], part(true, "a\nb\n", "a\nb\n"));
    assert!(blocks[0].iter().any(|p| !p.0));
}

#[test]
fn blocks_below_the_cutoff_become_one() {
    // A line with nothing in common, which scores zero, and a line of which
    // one word in two is the same.
    let blocks = diff("abc\nc x\n", "xyz\nc y\n");
    assert_eq!(blocks.len(), 1);
}

#[test]
fn blocks_on_both_sides_of_the_cutoff_stay_apart() {
    let blocks = diff("x = 1\ny = 2\n", "y = 2\nx = 1\n");
    assert_eq!(blocks.len(), 3);
}

#[test]
fn one_line_indented_anew() {
    for (left, right, gap) in [
        ("  a b\n", "    a b\n", ("", "  ")),
        ("\ta b \n", "a b \n", ("\t", "")),
        ("\tx\n", "  x\n", ("\t", "  ")),
    ] {
        let hunk = hunk_of(left, right);
        let mut tokeniser = Tokeniser::new();
        let maker = BlockMaker::new(&hunk, [1, 1], &mut tokeniser);
        let block = maker.make_block();
        let parts: Vec<_> = block.parts.iter().map(|p| (p.matches, text(p.get(0)), text(p.get(1)))).collect();
        let rest = &left[gap.0.len()..];
        assert_eq!(parts, vec![part(false, gap.0, gap.1), part(true, rest, rest)]);
    }
}

#[test]
fn parts_that_match_hold_the_same_words_whatever_the_lines() {
    // Lines that do not end in a newline, within the hunk.
    let cases: [(&[&str], &[&str]); 3] = [
        (&["k a", " b\n", "c z\n"], &["j a b\n", "c y\n"]),
        (&["a", "b", "c\n"], &["a b", "c\n"]),
        (&["x y", "x y\n"], &["x", " y x y\n"]),
    ];
    for (left, right) in cases {
        let mut hunk = Hunk::new();
        hunk.left = left.iter().map(|l| l.as_bytes().to_vec()).collect();
        hunk.right = right.iter().map(|l| l.as_bytes().to_vec()).collect();
        let mut tokeniser = Tokeniser::new();
        let maker = BlockMaker::new(&hunk, [1, 1], &mut tokeniser);
        let block = maker.make_block();
        for p in block.parts.iter() {
            assert!(!p.matches || p.get(0) == p.get(1));
        }
        let mut at = (0, 0);
        for b in block.split_block().iter() {
            for p in b.parts.iter() {
                assert_eq!((p.slices.left.start, p.slices.right.start), at);
                assert!(!p.matches || p.get(0) == p.get(1));
                at = (p.slices.left.end, p.slices.right.end);
            }
        }
        assert_eq!(at, (maker.word_count(0), maker.word_count(1)));
    }
}

#[test]
fn an_insertion_ends_before_a_closing_bracket_rather_than_in_white_space() {
    // The word and the blank that are new can stand as `a ` after the opening
    // bracket or as ` a` before the closing one; the closing bracket counts
    // before white space.
    assert_eq!(
        diff("(a)\n", "(a a)\n"),
        vec![vec![part(true, "(a", "(a"), part(false, "", " a"), part(true, ")\n", ")\n")]]
    );
}
