use prettydiff::block_maker::BlockMaker;
use prettydiff::hunk::Hunk;
use prettydiff::line_differ::LineDiffer;
use prettydiff::pair::Span;
use prettydiff::shift::{score_part_shift, score_words, shift_parts};
use prettydiff::tokeniser::{Token, Tokeniser};
use prettydiff::word_differ::{isjunk, DiffMatch, WordDiffer};

fn lines(text: &str) -> Vec<Vec<u8>> {
    text.split_inclusive('\n').map(|l| l.as_bytes().to_vec()).collect()
}

fn maker(left: &str, right: &str) -> BlockMaker {
    let mut hunk = Hunk::new();
    hunk.left = lines(left);
    hunk.right = lines(right);
    let mut tokeniser = Tokeniser::new();
    BlockMaker::new(&hunk, [1, 1], &mut tokeniser)
}

#[test]
fn longest_run_of_lines() {
    let m = maker("a\nb\nc\nx\nb\nc\nd\n", "b\nc\nd\nq\nb\nc\n");
    let d = LineDiffer::new(&m);
    // b c d is the longest; it begins at line 4 on the left.
    assert_eq!(d.find_longest_match(0, 7, 0, 6), Some((4, 0, 3)));
    // Of two runs of the same length the first on the left, then the first on the right.
    assert_eq!(d.find_longest_match(0, 6, 0, 6), Some((1, 0, 2)));
    assert_eq!(d.find_longest_match(0, 6, 1, 6), Some((1, 4, 2)));
    // A single line is no run.
    assert_eq!(d.find_longest_match(0, 2, 0, 6), None);
    assert_eq!(d.find_longest_match(3, 3, 0, 6), None);
}

#[test]
fn runs_of_lines_before_and_after_the_longest() {
    let m = maker("a\nb\nx\nc\nd\ne\ny\nf\ng\n", "a\nb\nc\nd\ne\nf\ng\n");
    let d = LineDiffer::new(&m);
    // Each line is a word and a newline.
    assert_eq!(
        d.get_matching_blocks(),
        vec![
            (Span::new(0, 4), Span::new(0, 4)),
            (Span::new(6, 12), Span::new(4, 10)),
            (Span::new(14, 18), Span::new(10, 14)),
        ]
    );
    let none = maker("a\nb\n", "c\nd\n");
    assert_eq!(LineDiffer::new(&none).get_matching_blocks(), vec![]);
}

#[test]
fn junk_is_blank() {
    assert!(isjunk(Token(Token::SPACE)));
    assert!(isjunk(Token(Token::TAB)));
    assert!(!isjunk(Token(Token::NEWLINE)));
    assert!(!isjunk(Token(17)));
}

#[test]
fn indentation_is_no_anchor() {
    let m = maker("x\n", "  a\n \tb c\n");
    let d = WordDiffer::new(&m);
    // ␠ ␠ a \n ␠ \t b ␠ c \n
    assert_eq!(d.anchors, vec![false, false, true, true, false, false, true, true, true, true]);
    assert!(d.matched_left.iter().all(|l| l.is_none()));
    assert_eq!(d.matched_right.len(), 2);
}

#[test]
fn best_run_of_words() {
    let m = maker("foo bar baz\n", "bar baz qux\n");
    let mut d = WordDiffer::new(&m);
    // foo ␠ bar ␠ baz \n   /   bar ␠ baz ␠ qux \n
    let best = d.find_longest_match(0, 6, 0, 6, true).unwrap();
    assert_eq!((best.left, best.right, best.length), (2, 0, 3));
    assert_eq!(best.non_ws_length, 3);
    assert_eq!(best.char_length, 7);
    assert_eq!((best.lineno_dist, best.lineno_dist_strong), (0, false));
    assert_eq!(d.matched_left, vec![Some(0)]);
    assert_eq!(d.matched_right, vec![Some(0)]);
    // Nothing in common but white space.
    assert!(d.find_longest_match(0, 2, 3, 5, false).is_none());
    assert!(d.find_longest_match(0, 0, 0, 6, false).is_none());
}

#[test]
fn a_run_found_without_writing_leaves_no_trace() {
    let m = maker("foo bar\n", "foo bar\n");
    let mut d = WordDiffer::new(&m);
    assert!(d.find_longest_match(0, 4, 0, 4, false).is_some());
    assert_eq!(d.matched_left, vec![None]);
    assert_eq!(d.matched_right, vec![None]);
}

#[test]
fn a_run_is_lengthened_over_blanks_and_the_newline() {
    let m = maker("x  foo \n", "y  foo \n");
    let d = WordDiffer::new(&m);
    // x ␠ ␠ foo ␠ \n  : the run of `foo` takes in the blanks before it and after
    // it, and the newline.
    assert_eq!(d.extend_match((3, 3, 1), 0, 6, 0, 6), (1, 1, 5));
    // No further than the ranges reach.
    assert_eq!(d.extend_match((3, 3, 1), 2, 5, 2, 5), (2, 2, 3));
    assert_eq!(d.extend_match((3, 3, 1), 3, 4, 3, 4), (3, 3, 1));
}

#[test]
fn runs_of_words_as_parts() {
    let m = maker("a b c\n", "a B c\n");
    let mut d = WordDiffer::new(&m);
    let parts = d.get_matching_blocks(0, 6, 0, 6);
    let spans: Vec<_> = parts
        .iter()
        .map(|p| (p.matches, p.slices.left.start, p.slices.left.end, p.slices.right.start, p.slices.right.end))
        .collect();
    assert_eq!(spans, vec![(true, 0, 2, 0, 2), (true, 3, 6, 3, 6)]);
}

#[test]
fn ranks_of_runs() {
    let m = DiffMatch {
        left: 0,
        right: 0,
        length: 1,
        lineno_dist: 3,
        lineno_dist_strong: false,
        non_ws_length: 1,
        char_length: 5,
    };
    assert_eq!(m.sort_key(), (3, usize::MAX - 5));
}

#[test]
fn several_runs_of_one_length() {
    // `x` occurs twice on the right; the run on the expected line is taken.
    let m = maker("x\n", "x\nx\n");
    let mut d = WordDiffer::new(&m);
    let best = d.find_longest_match(0, 2, 0, 4, true).unwrap();
    assert_eq!((best.left, best.right), (0, 0));
    let mut d = WordDiffer::new(&m);
    let mut matches = vec![
        DiffMatch { left: 0, right: 0, length: 1, lineno_dist: 0, lineno_dist_strong: false, non_ws_length: 1, char_length: 1 },
        DiffMatch { left: 0, right: 2, length: 1, lineno_dist: 1, lineno_dist_strong: false, non_ws_length: 1, char_length: 1 },
    ];
    let r = d.handle_multiple_matches(&mut matches, 0, 2, 0, 4, false);
    assert!(r.is_none());
    assert!(!matches.is_empty());
}

#[test]
fn scores_of_words() {
    let m = maker("f(a, b);\n", "f(a);\n");
    // f ( a , ␠ b ) ; \n
    let p = m.make_part(false, Span::new(3, 6), Span::new(3, 3));
    // `, b` : no opening bracket, nothing of a class at the end; a space before? no: `a`.
    assert_eq!(score_words(&p, 0, 0), [0, 0, 0, 0, 0, 1, 0]);
    // Moved one word back: `␠ b )` ends in a closing bracket, with `;` after it.
    assert_eq!(score_words(&p, 0, 1), [0, 0, 0, 0, 0, 2, 0]);
    // Moved one word to the front: `a , ␠` ends in white space and a comma.
    assert_eq!(score_words(&p, 0, -1), [0, 2, 0, 2, 0, 0, 1]);
    let line = m.make_part(false, Span::new(0, 9), Span::new(0, 0));
    // The whole line: it begins the text and ends in a newline after `;` and `)`.
    assert_eq!(score_words(&line, 0, 0), [4, 2, 0, 0, 0, 2, 0]);
}

#[test]
fn an_insertion_moves_through_equal_words_only() {
    let m = maker("f(a);\n", "f(a, a, a);\n");
    // left:  f ( a ) ; \n
    // right: f ( a , ␠ a , ␠ a ) ; \n
    let parts = vec![
        m.make_part(true, Span::new(0, 3), Span::new(0, 3)),
        m.make_part(false, Span::new(3, 3), Span::new(3, 9)),
        m.make_part(true, Span::new(3, 6), Span::new(9, 12)),
    ];
    let cands = score_part_shift(&parts, 1, 1);
    let shifts: Vec<isize> = cands.iter().map(|c| c.1).collect();
    // To the front the word `a` agrees, then `(` and `␠` differ; to the back `)`
    // and `,` differ at once.
    assert_eq!(shifts, vec![0, -1]);
    assert_eq!(cands[0].0, score_words(&parts[1], 1, 0));
    assert_eq!(cands[1].0, score_words(&parts[1], 1, -1));
}

#[test]
fn an_insertion_is_moved_to_where_it_reads_best() {
    let m = maker("f(a);\n", "f(a, a, a);\n");
    let mut parts = vec![
        m.make_part(true, Span::new(0, 3), Span::new(0, 3)),
        m.make_part(false, Span::new(3, 3), Span::new(3, 9)),
        m.make_part(true, Span::new(3, 6), Span::new(9, 12)),
    ];
    shift_parts(&mut parts);
    let spans: Vec<_> = parts
        .iter()
        .map(|p| (p.matches, p.slices.left.start, p.slices.left.end, p.slices.right.start, p.slices.right.end))
        .collect();
    // `a, a, ` reads better than `, a, a`: it ends in white space and a comma.
    assert_eq!(spans, vec![(true, 0, 2, 0, 2), (false, 2, 2, 2, 8), (true, 2, 6, 8, 12)]);
    for p in parts.iter().filter(|p| p.matches) {
        assert_eq!(p.get(0), p.get(1));
    }
}

#[test]
fn an_insertion_at_the_start_leaves_an_anchor() {
    let m = maker("b\nc\n", "a\nb\nb\nc\n");
    // left: b \n c \n      right: a \n b \n b \n c \n
    let mut parts = vec![
        m.make_part(false, Span::new(0, 0), Span::new(2, 4)),
        m.make_part(true, Span::new(0, 4), Span::new(4, 8)),
    ];
    // The parts begin at word 2 of the right side; what is before is not theirs.
    let before: Vec<_> = parts.iter().map(|p| p.slices).collect();
    shift_parts(&mut parts);
    assert_eq!(parts[0].slices.right.start, before[0].right.start);
    assert_eq!(parts.last().unwrap().slices.right.end, 8);
    for w in parts.windows(2) {
        assert_eq!(w[0].slices.left.end, w[1].slices.left.start);
        assert_eq!(w[0].slices.right.end, w[1].slices.right.start);
    }
    for p in parts.iter().filter(|p| p.matches) {
        assert_eq!(p.get(0), p.get(1));
    }
}

#[test]
fn few_parts_are_not_shifted() {
    let m = maker("a\n", "a\nb\n");
    let mut parts = vec![m.make_part(false, Span::new(2, 2), Span::new(2, 4))];
    shift_parts(&mut parts);
    assert_eq!(parts.len(), 1);
    assert_eq!(parts[0].slices.right, Span::new(2, 4));
    let mut none = Vec::new();
    shift_parts(&mut none);
    assert!(none.is_empty());
}

#[test]
fn runs_of_words_that_touch_become_one_part() {
    // Three equal lines: the runs a \n, b \n and c \n touch.
    let m = maker("a\nb\nc\n", "a\nb\nc\n");
    let mut d = WordDiffer::new(&m);
    let parts = d.get_matching_blocks(0, 6, 0, 6);
    assert_eq!(parts.len(), 1);
    assert!(parts[0].matches);
    assert_eq!((parts[0].slices.left, parts[0].slices.right), (Span::new(0, 6), Span::new(0, 6)));
    // Four, and five with a line between that differs.
    let m = maker("a\nb\nc\nd\n", "a\nb\nc\nd\n");
    let parts = WordDiffer::new(&m).get_matching_blocks(0, 8, 0, 8);
    assert_eq!(parts.len(), 1);
    assert_eq!((parts[0].slices.left, parts[0].slices.right), (Span::new(0, 8), Span::new(0, 8)));
    let m = maker("a\nb\nx\nc\nd\ne\n", "a\nb\ny\nc\nd\ne\n");
    let parts = WordDiffer::new(&m).get_matching_blocks(0, 12, 0, 12);
    for pair in parts.windows(2) {
        assert!(
            !(pair[0].slices.left.end == pair[1].slices.left.start
                && pair[0].slices.right.end == pair[1].slices.right.start)
        );
    }
    assert!(parts.iter().all(|p| p.matches && p.get(0) == p.get(1)));
}
