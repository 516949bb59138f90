use mdhtml::cursor::{
    character, check_eat, count, get_until, get_word, is, is_eof, is_line_ending, trim, trim_left,
    trim_right, CH_EOF, CH_REPLACEMENT,
};
use mdhtml::doc::{Block, Inline, Passage};
use mdhtml::sink::Buf;

#[test]
fn is_matches_exact_literal() {
    let text: Vec<u8> = b"a**b".to_vec();
    assert!(is(&text, 1, b"**"));
    assert!(!is(&text, 0, b"**"));
    assert!(!is(&text, 3, b"**"));
    assert!(!is(&text, 0, b""));
}

#[test]
fn count_is_greedy() {
    let text: Vec<u8> = b"####x".to_vec();
    assert_eq!(count(&text, 0, b"#"), 4);
    assert_eq!(count(&text, 2, b"#"), 2);
    assert_eq!(count(&text, 4, b"#"), 0);
}

#[test]
fn check_eat_advances_by_whole_repeats() {
    let text: Vec<u8> = b"###x".to_vec();
    assert_eq!(check_eat(&text, 0, b"#", 3), 3);
    assert_eq!(check_eat(&text, 0, b"#", 0), 0);
}

#[test]
fn character_reports_sentinels() {
    let text: Vec<u8> = vec![b'a', 0u8];
    assert_eq!(character(&text, 0), 'a' as u32);
    assert_eq!(character(&text, 1), CH_REPLACEMENT);
    assert_eq!(character(&text, 2), CH_EOF);
    assert!(!is_eof(&text, 1));
    assert!(is_eof(&text, 2));
}

#[test]
fn line_ending_kinds() {
    let text: Vec<u8> = b"\r\n\na\r".to_vec();
    assert_eq!(is_line_ending(&text, 0), 2);
    assert_eq!(is_line_ending(&text, 2), 1);
    assert_eq!(is_line_ending(&text, 3), 0);
    assert_eq!(is_line_ending(&text, 4), 1);
}

#[test]
fn get_word_takes_alphanumerics() {
    let text: Vec<u8> = b"ab1 x".to_vec();
    let (w, e) = get_word(&text, 0).unwrap();
    assert_eq!(w, b"ab1".to_vec());
    assert_eq!(e, 3);
    assert!(get_word(&text, 3).is_none());
    assert!(get_word(&text, 5).is_none());
}

#[test]
fn get_until_consumes_terminator() {
    let text: Vec<u8> = b"ab`cd".to_vec();
    let r = get_until(&text, 0, b"`", false);
    assert!(r.reached_target);
    assert_eq!(r.text, b"ab".to_vec());
    assert_eq!(r.pos, 3);
}

#[test]
fn get_until_stops_at_newline_in_single_line_mode() {
    let text: Vec<u8> = b"ab\ncd`".to_vec();
    let r = get_until(&text, 0, b"`", false);
    assert!(!r.reached_target);
    assert_eq!(r.text, b"ab".to_vec());
    assert_eq!(r.pos, 2);
    let m = get_until(&text, 0, b"`", true);
    assert!(m.reached_target);
    assert_eq!(m.text, b"ab\ncd".to_vec());
    assert_eq!(m.pos, 6);
}

#[test]
fn trims_remove_ascii_whitespace() {
    let mut a: Vec<u8> = b"  x y\t\n".to_vec();
    trim_left(&mut a);
    assert_eq!(a, b"x y\t\n".to_vec());
    let mut b: Vec<u8> = b"  x y\t\n".to_vec();
    trim_right(&mut b);
    assert_eq!(b, b"  x y".to_vec());
    let mut c: Vec<u8> = b"  x y\t\n".to_vec();
    trim(&mut c);
    assert_eq!(c, b"x y".to_vec());
}

#[test]
fn buf_operations_append() {
    let mut buf: Vec<u8> = vec![];
    buf.push_str("ab");
    Buf::push(&mut buf, b'c');
    buf.push_char('d');
    buf.push_vec(&b"ef".to_vec());
    assert_eq!(buf, b"abcdef".to_vec());
}

#[test]
fn buf_push_char_keeps_the_low_byte() {
    let mut buf: Vec<u8> = vec![];
    buf.push_char('\u{e9}');
    assert_eq!(buf, vec![0xe9u8]);
}

#[test]
fn node_lengths_count_source_bytes() {
    let ch = Inline::Character { ch: 'x' as u32 };
    assert_eq!(ch.len(), 1);
    let bold = Inline::Bold {
        nodes: vec![Inline::Character { ch: 'a' as u32 }, Inline::Character { ch: 'b' as u32 }],
    };
    assert_eq!(bold.len(), 2);
    let code = Inline::CodeInline { code: b"xyz".to_vec() };
    assert_eq!(code.len(), 3);
    let blk = Block::CodeBlock { language: b"rs".to_vec(), text: b"fn".to_vec() };
    assert_eq!(blk.len(), 4);
    let doc = Passage { paragraphs: vec![blk, Block::MathDisplay { formula: b"e".to_vec() }] };
    assert_eq!(doc.len(), 5);
}

#[test]
fn node_render_matches_output_table() {
    let mut buf: Vec<u8> = vec![];
    let img = Inline::Image { alt: b"a".to_vec(), url: b"u".to_vec(), title: b"t".to_vec() };
    img.write_to_buf(&mut buf);
    assert_eq!(buf, b"<img src=\"u\" alt=\"a\" title=\"t\">".to_vec());
    let mut buf2: Vec<u8> = vec![];
    let h = Block::Heading {
        rank: 3,
        text: Inline::Text { nodes: vec![Inline::Character { ch: 'z' as u32 }] },
    };
    h.write_to_buf(&mut buf2);
    assert_eq!(buf2, b"<h3>z</h3>".to_vec());
}
