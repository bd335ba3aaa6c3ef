use prettydiff::block_maker::BlockMaker;
use prettydiff::hunk::Hunk;
use prettydiff::tokeniser::{Token, Tokeniser};
use prettydiff::whitespace::CheckAllWhitespace;

#[test]
fn reserved_tokens() {
    let mut t = Tokeniser::new();
    assert_eq!(t.max_token(), Token(5));
    assert_eq!(t.map(b"\n"), Token(Token::NEWLINE));
    assert_eq!(t.map(b" "), Token(Token::SPACE));
    assert_eq!(t.map(b"\t"), Token(Token::TAB));
    assert_eq!(t.map(b"\x0c"), Token(Token::FORM_FEED));
    assert_eq!(t.map(b"\r"), Token(Token::CARRIAGE_RETURN));
    assert_eq!(t.max_token(), Token(5));
}

#[test]
fn fresh_tokens_in_order() {
    let mut t = Tokeniser::new();
    assert_eq!(t.map(b"foo"), Token(5));
    assert_eq!(t.map(b"bar"), Token(6));
    assert_eq!(t.map(b"foo"), Token(5));
    assert_eq!(t.map(b""), Token(7));
    assert_eq!(t.max_token(), Token(8));
}

#[test]
fn blank_tokens() {
    assert!(!Token(0).is_ascii_whitespace());
    assert!(Token(1).is_ascii_whitespace());
    assert!(Token(2).is_ascii_whitespace());
    assert!(Token(3).is_ascii_whitespace());
    assert!(Token(4).is_ascii_whitespace());
    assert!(!Token(5).is_ascii_whitespace());
}

#[test]
fn white_space_bytes() {
    assert!(b" \t\n\x0c\r".to_vec().is_ascii_whitespace());
    assert!(Vec::<u8>::new().is_ascii_whitespace());
    assert!(!b" a ".to_vec().is_ascii_whitespace());
    assert!(!b"\x0b".to_vec().is_ascii_whitespace());
}

fn words_of(line: &str) -> Vec<String> {
    let mut hunk = Hunk::new();
    hunk.left.push(line.as_bytes().to_vec());
    let mut t = Tokeniser::new();
    let maker = BlockMaker::new(&hunk, [1, 1], &mut t);
    maker.sides.left.words.iter().map(|w| String::from_utf8_lossy(w).into_owned()).collect()
}

#[test]
fn words_of_a_line() {
    assert_eq!(words_of("fooBar BAZ_QUX9 x1y 42 a+=b\n"), vec![
        "foo", "Bar", " ", "BAZ_QUX9", " ", "x1y", " ", "42", " ", "a", "+=", "b", "\n"
    ]);
    assert_eq!(words_of("if (a) { f(); }\n"), vec![
        "if", " ", "(", "a", ")", " ", "{", " ", "f", "(", ")", ";", " ", "}", "\n"
    ]);
    assert_eq!(words_of("\u{e9}t\u{e9}\n"), vec!["\u{e9}", "t", "\u{e9}", "\n"]);
    assert_eq!(words_of(""), Vec::<String>::new());
}

#[test]
fn indices_of_words_and_lines() {
    let mut hunk = Hunk::new();
    hunk.left = vec![b"a b\n".to_vec(), b"c\n".to_vec()];
    hunk.right = vec![b"c\n".to_vec()];
    let mut t = Tokeniser::new();
    let maker = BlockMaker::new(&hunk, [10, 20], &mut t);
    assert_eq!(maker.sides.left.line_to_word, vec![0, 4, 6]);
    assert_eq!(maker.sides.left.word_to_line, vec![0, 0, 0, 0, 1, 1, 2]);
    assert_eq!(maker.sides.right.line_to_word, vec![0, 2]);
    assert_eq!(maker.get_lineno(0, 0), 10);
    assert_eq!(maker.get_lineno(0, 4), 11);
    assert_eq!(maker.get_lineno(0, 6), 12);
    assert_eq!(maker.get_lineno(1, 1), 20);
    assert_eq!(maker.get_wordno(0, 11), 4);
    assert_eq!(maker.get_wordno(0, 12), 6);
    assert_eq!(maker.get_wordno(1, 20), 0);
    assert_eq!(maker.word_count(0), 6);
    assert_eq!(maker.line_count(0), 2);
    // Tokens in the order of interning: the words of a line, then the line.
    let ids: Vec<usize> = maker.sides.left.tokens.iter().map(|t| t.0).collect();
    assert_eq!(ids, vec![5, 1, 6, 0, 8, 0]);
    let line_ids: Vec<usize> = maker.sides.left.line_tokens.iter().map(|t| t.0).collect();
    assert_eq!(line_ids, vec![7, 9]);
    let right_ids: Vec<usize> = maker.sides.right.tokens.iter().map(|t| t.0).collect();
    assert_eq!(right_ids, vec![8, 0]);
    assert_eq!(maker.sides.right.line_tokens[0].0, 9);
    assert_eq!(maker.max_token, 10);
    assert_eq!(t.max_token(), Token(10));
}

#[test]
fn hunk_sides() {
    let mut hunk = Hunk::new();
    assert!(hunk.is_empty());
    hunk.get_mut(1).push(b"x\n".to_vec());
    assert!(!hunk.is_empty());
    assert_eq!(hunk.get(0).len(), 0);
    assert_eq!(hunk.get(1), &vec![b"x\n".to_vec()]);
    hunk.get_mut(0).push(b"y\n".to_vec());
    assert_eq!(hunk.left, vec![b"y\n".to_vec()]);
}

#[test]
fn newlines_delimit_the_lines() {
    let mut t = Tokeniser::new();
    let mut hunk = Hunk::new();
    hunk.left = vec![b"a b\n".to_vec(), b"c\n".to_vec()];
    hunk.right = vec![b"c\n".to_vec(), b"last without newline".to_vec()];
    assert!(BlockMaker::new(&hunk, [1, 1], &mut t).is_line_delimited());
    assert!(BlockMaker::new(&Hunk::new(), [1, 1], &mut t).is_line_delimited());
    // A line that does not end in a newline, with a line after it.
    let mut hunk = Hunk::new();
    hunk.left = vec![b"k a".to_vec(), b" b\n".to_vec(), b"c z\n".to_vec()];
    hunk.right = vec![b"j a b\n".to_vec(), b"c y\n".to_vec()];
    assert!(!BlockMaker::new(&hunk, [1, 1], &mut t).is_line_delimited());
    // A newline within a line.
    let mut hunk = Hunk::new();
    hunk.right = vec![b"a\nb\n".to_vec()];
    assert!(!BlockMaker::new(&hunk, [1, 1], &mut t).is_line_delimited());
    // An empty line that is not the last.
    let mut hunk = Hunk::new();
    hunk.left = vec![b"".to_vec(), b"a\n".to_vec()];
    assert!(!BlockMaker::new(&hunk, [1, 1], &mut t).is_line_delimited());
}

#[test]
fn both_sides_of_a_pair() {
    let mut p = prettydiff::pair::Pair { left: 1, right: 2 };
    assert_eq!(*p.index(0), 1);
    assert_eq!(*p.index(1), 2);
    assert_eq!(*p.index(7), 2);
    *p.index_mut(0) += 10;
    *p.index_mut(1) += 20;
    assert_eq!((p.left, p.right), (11, 22));
    let s = prettydiff::pair::Span::new(3, 5);
    assert_eq!((s.len(), s.is_empty()), (2, false));
    let e = prettydiff::pair::Span::new(5, 5);
    assert_eq!((e.len(), e.is_empty()), (0, true));
}
