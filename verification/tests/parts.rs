use prettydiff::block::{find_common_prefix_length, find_common_suffix_length, Block};
use prettydiff::block_maker::BlockMaker;
use prettydiff::hunk::Hunk;
use prettydiff::pair::{Pair, Span};
use prettydiff::part::Part;
use prettydiff::tokeniser::Tokeniser;

fn lines(text: &str) -> Vec<Vec<u8>> {
    text.split_inclusive('\n').map(|l| l.as_bytes().to_vec()).collect()
}

fn maker(left: &str, right: &str, numbers: [usize; 2]) -> BlockMaker {
    let mut hunk = Hunk::new();
    hunk.left = lines(left);
    hunk.right = lines(right);
    let mut tokeniser = Tokeniser::new();
    BlockMaker::new(&hunk, numbers, &mut tokeniser)
}

fn spans(p: &Part) -> ((usize, usize), (usize, usize)) {
    ((p.slices.left.start, p.slices.left.end), (p.slices.right.start, p.slices.right.end))
}

fn pieces(p: Part) -> Vec<((usize, usize), (usize, usize))> {
    p.split().iter().flatten().map(spans).collect()
}

// left:  "a b\n" "c d\n" "e\n"  -> a ␠ b \n c ␠ d \n e \n   (10 words)
// right: "x\n" "y z\n"          -> x \n y ␠ z \n            (6 words)

#[test]
fn lines_of_a_part() {
    let m = maker("a b\nc d\ne\n", "x\ny z\n", [10, 20]);
    let p = m.make_part(false, Span::new(2, 6), Span::new(0, 2));
    assert_eq!(p.first_lineno(0), 10);
    assert_eq!(p.last_lineno(0), 11);
    assert_eq!(p.first_lineno(1), 20);
    assert_eq!(p.last_lineno(1), 20);
    assert!(!p.single_line(0));
    assert!(p.single_line(1));
    assert!(!p.starts_line(0));
    assert!(p.starts_line(1));
    assert!(!p.ends_line(0));
    assert!(p.ends_line(1));
    assert!(!p.whole_line());
    assert!(!p.is_empty(0));
    assert_eq!(p.get(0), &[b"b".to_vec(), b"\n".to_vec(), b"c".to_vec(), b" ".to_vec()][..]);
    assert_eq!(p.word_len(0), 2);
    assert_eq!(p.word_len(1), 1);
    assert_eq!(p.char_len(0), 2);
    assert!(!p.inlineable());
}

#[test]
fn an_empty_part_lies_on_the_line_of_its_place() {
    let m = maker("a b\nc d\ne\n", "x\ny z\n", [10, 20]);
    let p = m.make_part(true, Span::new(4, 4), Span::new(6, 6));
    assert_eq!((p.first_lineno(0), p.last_lineno(0)), (11, 11));
    assert_eq!((p.first_lineno(1), p.last_lineno(1)), (22, 22));
    assert!(p.is_empty(0) && p.is_empty(1));
    assert!(p.starts_line(0) && p.starts_line(1));
    assert!(p.ends_line(1));
    assert!(!p.ends_line(0));
    assert_eq!(p.word_len(0), 0);
    assert!(p.inlineable());
}

#[test]
fn whole_lines() {
    let m = maker("a b\nc d\ne\n", "x\ny z\n", [1, 1]);
    assert!(m.make_part(false, Span::new(0, 8), Span::new(2, 6)).whole_line());
    assert!(m.make_part(false, Span::new(4, 10), Span::new(6, 6)).whole_line());
    assert!(!m.make_part(false, Span::new(4, 10), Span::new(0, 0)).whole_line());
    assert!(!m.make_part(false, Span::new(4, 9), Span::new(6, 6)).whole_line());
}

#[test]
fn partition_brings_the_places_into_the_ranges() {
    let m = maker("a b\nc d\ne\n", "x\ny z\n", [1, 1]);
    let p = m.make_part(true, Span::new(2, 6), Span::new(1, 4));
    let (a, b) = p.partition(4, 2);
    assert_eq!(spans(&a), ((2, 4), (1, 2)));
    assert_eq!(spans(&b), ((4, 6), (2, 4)));
    assert!(a.matches && b.matches);
    let (a, b) = p.partition(0, 9);
    assert_eq!(spans(&a), ((2, 2), (1, 4)));
    assert_eq!(spans(&b), ((2, 6), (4, 4)));
    let (a, b) = p.partition_from_start(1, 100);
    assert_eq!(spans(&a), ((2, 3), (1, 4)));
    assert_eq!(spans(&b), ((3, 6), (4, 4)));
    let (a, b) = p.partition_from_end(1, 100);
    assert_eq!(spans(&a), ((2, 5), (1, 1)));
    assert_eq!(spans(&b), ((5, 6), (1, 4)));
    let (a, b) = p.partition_from_start(usize::MAX, 0);
    assert_eq!(spans(&a), ((2, 6), (1, 1)));
    assert_eq!(spans(&b), ((6, 6), (1, 4)));
}

#[test]
fn shifted_ranges() {
    let m = maker("a b\nc d\ne\n", "x\ny z\n", [1, 1]);
    let p = m.make_part(true, Span::new(2, 6), Span::new(1, 4));
    let Pair { left, right } = p.shift_slice(-1, 2);
    assert_eq!((left, right), (Span::new(1, 8), Span::new(0, 6)));
    let Pair { left, right } = p.shift_slice(0, 0);
    assert_eq!((left, right), (p.slices.left, p.slices.right));
}

#[test]
fn split_of_whole_lines_is_the_part() {
    let m = maker("a b\nc d\ne\n", "x\ny z\n", [1, 1]);
    assert_eq!(pieces(m.make_part(false, Span::new(0, 8), Span::new(2, 6))), vec![((0, 8), (2, 6))]);
}

#[test]
fn split_of_a_part_over_lines_on_both_sides() {
    let m = maker("a b\nc d\ne\n", "x\ny z\n", [1, 1]);
    // From the middle of the first line to the middle of the last, on both sides.
    let p = m.make_part(false, Span::new(2, 9), Span::new(1, 4));
    assert_eq!(
        pieces(p),
        vec![((2, 4), (1, 2)), ((4, 8), (2, 2)), ((8, 9), (2, 4))]
    );
}

#[test]
fn split_where_one_side_is_empty() {
    let m = maker("a b\nc d\ne\n", "x\ny z\n", [1, 1]);
    let p = m.make_part(false, Span::new(2, 9), Span::new(2, 2));
    assert_eq!(
        pieces(p),
        vec![((2, 4), (2, 2)), ((4, 8), (2, 2)), ((8, 9), (2, 2))]
    );
}

#[test]
fn split_of_lines_against_part_of_a_line() {
    let m = maker("a b\nc d\ne\n", "x\ny z\n", [1, 1]);
    // Whole lines on the left, the start of a line on the right.
    let p = m.make_part(false, Span::new(4, 8), Span::new(2, 4));
    assert_eq!(pieces(p), vec![((4, 8), (2, 2)), ((8, 8), (2, 4))]);
    // Whole lines on the right, the end of a line on the left.
    let p = m.make_part(false, Span::new(6, 8), Span::new(0, 2));
    assert_eq!(pieces(p), vec![((6, 6), (0, 2)), ((6, 8), (2, 2))]);
}

#[test]
fn split_of_a_part_within_a_line() {
    let m = maker("a b\nc d\ne\n", "x\ny z\n", [1, 1]);
    let p = m.make_part(false, Span::new(1, 2), Span::new(3, 4));
    assert_eq!(pieces(p), vec![((1, 2), (3, 4))]);
}

#[test]
fn split_of_a_match_keeps_the_match() {
    let m = maker("p q\nr s\n", "p q\nr s\n", [1, 1]);
    // q \n r : from the middle of a line to the middle of the next.
    let p = m.make_part(true, Span::new(2, 5), Span::new(2, 5));
    let parts: Vec<Part> = p.split().iter().flatten().copied().collect();
    assert_eq!(parts.iter().map(spans).collect::<Vec<_>>(), vec![((2, 4), (2, 4)), ((4, 4), (4, 4)), ((4, 5), (4, 5))]);
    for piece in parts {
        assert!(piece.matches);
        assert_eq!(piece.get(0), piece.get(1));
    }
}

#[test]
fn words_in_common() {
    let w = |s: &[&str]| s.iter().map(|x| x.as_bytes().to_vec()).collect::<Vec<_>>();
    assert_eq!(find_common_prefix_length(&w(&["a", "b", "c"]), &w(&["a", "b", "d"])), 2);
    assert_eq!(find_common_prefix_length(&w(&["a"]), &w(&["a", "b"])), 1);
    assert_eq!(find_common_prefix_length(&w(&[]), &w(&["a"])), 0);
    assert_eq!(find_common_prefix_length(&w(&["x"]), &w(&["a"])), 0);
    assert_eq!(find_common_suffix_length(&w(&["a", "b", "c"]), &w(&["x", "b", "c"])), 2);
    assert_eq!(find_common_suffix_length(&w(&["c"]), &w(&["b", "c"])), 1);
    assert_eq!(find_common_suffix_length(&w(&["a", "b"]), &w(&["a", "c"])), 0);
    assert_eq!(find_common_suffix_length(&w(&[]), &w(&[])), 0);
}

fn block<'a>(m: &'a BlockMaker, parts: &[(bool, (usize, usize), (usize, usize))]) -> Block<'a> {
    Block {
        parts: parts
            .iter()
            .map(|&(matches, l, r)| m.make_part(matches, Span::new(l.0, l.1), Span::new(r.0, r.1)))
            .collect(),
    }
}

#[test]
fn score_is_twice_what_matches_over_all() {
    let m = maker("a b c\n", "a B c\n", [1, 1]);
    // a ␠ | b | ␠ c \n
    let b = block(&m, &[(true, (0, 2), (0, 2)), (false, (2, 3), (2, 3)), (true, (3, 6), (3, 6))]);
    let s = b.score();
    assert_eq!((s.matched, s.total), (2, 6));
    assert!(!s.is_zero());
    assert!(s.above_cutoff());
    assert!(!s.below_cutoff());
    assert!(!b.perfect());
    assert!(!b.is_empty(0));
    assert!(!b.splits_to_multiline());
    assert_eq!(spans(b.last_non_empty(0).unwrap()), ((3, 6), (3, 6)));
}

#[test]
fn score_at_the_cutoff() {
    // Three words of ten match: the score is exactly three fifths.
    let m = maker("a b c d e\n", "a b c x y\n", [1, 1]);
    let b = block(&m, &[(true, (0, 6), (0, 6)), (false, (6, 10), (6, 10))]);
    let s = b.score();
    assert_eq!((s.matched, s.total), (3, 10));
    assert!(!s.below_cutoff());
    assert!(!s.above_cutoff());
    assert!(!s.is_zero());
}

#[test]
fn score_counts_ten_words_of_a_part_at_most() {
    let left = "a b c d e f g h i j k l\n";
    let m = maker(left, left, [1, 1]);
    let b = block(&m, &[(true, (0, 24), (0, 24))]);
    let s = b.score();
    assert_eq!((s.matched, s.total), (10, 10));
    assert!(s.above_cutoff());
    assert!(b.perfect());
}

#[test]
fn score_counts_both_sides_of_a_part_together() {
    let left = "a b c d e f\n";
    let m = maker(left, left, [1, 1]);
    let b = block(&m, &[(true, (0, 12), (0, 12))]);
    let s = b.score();
    assert_eq!((s.matched, s.total), (6, 10));
    let m = maker("a b\n", "c\n", [1, 1]);
    let b = block(&m, &[(false, (0, 4), (0, 2))]);
    let s = b.score();
    assert_eq!((s.matched, s.total), (0, 3));
}

#[test]
fn score_of_nothing_is_one() {
    let m = maker(" \n", " \n", [1, 1]);
    let b = block(&m, &[(false, (0, 2), (0, 2))]);
    let s = b.score();
    assert_eq!((s.matched, s.total), (0, 0));
    assert!(!s.is_zero());
    assert!(s.above_cutoff());
    assert!(!s.below_cutoff());
    let empty = Block { parts: Vec::new() };
    let s = empty.score();
    assert_eq!((s.matched, s.total), (0, 0));
    assert!(empty.perfect());
    assert!(empty.is_empty(0) && empty.is_empty(1));
    assert!(empty.last_non_empty(1).is_none());
}

#[test]
fn one_line_against_several() {
    let m = maker("a\nb\n", "a b\n", [1, 1]);
    let b = block(&m, &[(false, (0, 4), (0, 3))]);
    assert!(b.splits_to_multiline());
    let b = block(&m, &[(false, (0, 2), (0, 3))]);
    assert!(!b.splits_to_multiline());
    let b = block(&m, &[(false, (0, 4), (0, 0))]);
    assert!(!b.splits_to_multiline());
}

#[test]
fn a_small_match_is_squeezed_and_the_score_falls() {
    let m = maker("aa x bb\n", "cc x dd\n", [1, 1]);
    // aa | ␠ x ␠ | bb | \n
    let mut b = block(
        &m,
        &[(false, (0, 1), (0, 1)), (true, (1, 4), (1, 4)), (false, (4, 5), (4, 5)), (true, (5, 6), (5, 6))],
    );
    let before = b.score();
    assert_eq!((before.matched, before.total), (1, 6));
    b.squeeze_parts();
    assert_eq!(
        b.parts.iter().map(spans).collect::<Vec<_>>(),
        vec![((0, 5), (0, 5)), ((5, 6), (5, 6))]
    );
    assert!(!b.parts[0].matches && b.parts[1].matches);
    let after = b.score();
    assert_eq!((after.matched, after.total), (0, 6));
}

#[test]
fn a_long_match_is_kept() {
    let m = maker("aa longword bb\n", "cc longword dd\n", [1, 1]);
    let mut b = block(
        &m,
        &[(false, (0, 1), (0, 1)), (true, (1, 4), (1, 4)), (false, (4, 5), (4, 5)), (true, (5, 6), (5, 6))],
    );
    b.squeeze_parts();
    assert_eq!(b.parts.len(), 4);
    assert_eq!(
        b.parts.iter().map(spans).collect::<Vec<_>>(),
        vec![((0, 1), (0, 1)), ((1, 4), (1, 4)), ((4, 5), (4, 5)), ((5, 6), (5, 6))]
    );
}

#[test]
fn parts_that_do_not_match_are_joined() {
    let m = maker("a b c\n", "x y z\n", [1, 1]);
    let mut b = block(&m, &[(false, (0, 2), (0, 2)), (false, (2, 5), (2, 5)), (true, (5, 6), (5, 6))]);
    b.squeeze_parts();
    assert_eq!(
        b.parts.iter().map(spans).collect::<Vec<_>>(),
        vec![((0, 5), (0, 5)), ((5, 6), (5, 6))]
    );
}

#[test]
fn parts_that_do_not_match_are_joined_and_what_matches_keeps_its_weight() {
    let m = maker("a b\nc d\n", "a b\nx y\n", [1, 1]);
    let mut b = block(&m, &[(true, (0, 4), (0, 4)), (false, (4, 5), (4, 5)), (false, (5, 8), (5, 8))]);
    let before = b.score();
    assert_eq!((before.matched, before.total), (2, 8));
    b.squeeze_parts();
    assert_eq!(b.parts.iter().map(spans).collect::<Vec<_>>(), vec![((0, 4), (0, 4)), ((4, 8), (4, 8))]);
    let after = b.score();
    assert_eq!((after.matched, after.total), (2, 8));
}

#[test]
fn a_part_of_other_words_is_cut_on_each_side_by_its_lines() {
    // left:  a ␠ b \n c ␠ d \n e ␠ f \n   right: x \n y ␠ z \n w \n
    let m = maker("a b\nc d\ne f\n", "x\ny z\nw\n", [1, 1]);
    let p = m.make_part(true, Span::new(1, 11), Span::new(0, 7));
    assert_eq!(pieces(p), vec![((1, 4), (0, 2)), ((4, 8), (2, 6)), ((8, 11), (6, 7))]);
}

#[test]
fn a_small_match_of_white_space_is_squeezed_and_the_score_stays() {
    let m = maker("aa bb\n", "cc dd\n", [1, 1]);
    // aa | ␠ | bb | \n
    let mut b = block(
        &m,
        &[(false, (0, 1), (0, 1)), (true, (1, 2), (1, 2)), (false, (2, 3), (2, 3)), (true, (3, 4), (3, 4))],
    );
    let before = b.score();
    assert_eq!((before.matched, before.total), (0, 4));
    b.squeeze_parts();
    assert_eq!(b.parts.iter().map(spans).collect::<Vec<_>>(), vec![((0, 3), (0, 3)), ((3, 4), (3, 4))]);
    let after = b.score();
    assert_eq!((after.matched, after.total), (0, 4));
}
