use mdhtml::parser::{parse, passage};

fn render(s: &str) -> String {
    let input: Vec<u8> = s.as_bytes().to_vec();
    let mut buf: Vec<u8> = vec![];
    parse(&input, &mut buf);
    String::from_utf8(buf).unwrap()
}

#[test]
fn start_test() {}

#[test]
fn heading_rank_one() {
    assert_eq!(render("# Hi"), "<h1> Hi</h1>");
}

#[test]
fn heading_rank_six() {
    assert_eq!(render("###### x"), "<h6> x</h6>");
}

#[test]
fn heading_rank_seven_falls_through() {
    assert_eq!(render("####### x"), "<p>####### x</p>");
}

#[test]
fn bold_simple() {
    assert_eq!(render("**bold**"), "<p><b>bold</b></p>");
}

#[test]
fn four_stars_stay_literal() {
    assert_eq!(render("****"), "<p>****</p>");
}

#[test]
fn unclosed_bold_rejected_then_italic_matches() {
    assert_eq!(render("**a"), "<p>*<i>a</i></p>");
}

#[test]
fn unclosed_italic_runs_to_end() {
    assert_eq!(render("*ab"), "<p><i>ab</i></p>");
}

#[test]
fn unclosed_deleted_runs_to_end() {
    assert_eq!(render("~~ab"), "<p><del>ab</del></p>");
}

#[test]
fn link_with_title() {
    assert_eq!(
        render("[text](http://x \"t\")"),
        "<p><a href=\"http://x\" title=\"t\">text</a></p>"
    );
}

#[test]
fn link_without_closing_paren_stays_literal() {
    assert_eq!(render("[text](http://x"), "<p>[text](http://x</p>");
}

#[test]
fn code_block_with_language() {
    assert_eq!(render("```lang\ncode\n```"), "<pre class=\"lang-lang\">\ncode\n</pre>");
}

#[test]
fn bold_with_nested_italic() {
    assert_eq!(render("**a *b* c**"), "<p><b>a <i>b</i> c</b></p>");
}

#[test]
fn italic_simple() {
    assert_eq!(render("*i*"), "<p><i>i</i></p>");
}

#[test]
fn deleted_simple() {
    assert_eq!(render("~~x~~"), "<p><del>x</del></p>");
}

#[test]
fn code_inline_simple() {
    assert_eq!(render("`c`"), "<p><code>c</code></p>");
}

#[test]
fn code_inline_unclosed_runs_to_end() {
    assert_eq!(render("`ab"), "<p><code>ab</code></p>");
}

#[test]
fn math_inline_ends_on_backtick() {
    assert_eq!(render("$x`y"), "<p><div class=\"lang-math-inline\">x</div>y</p>");
}

#[test]
fn math_display_simple() {
    assert_eq!(render("$$e=mc^2$$"), "<pre class=\"lang-math-display\">e=mc^2</pre>");
}

#[test]
fn empty_code_fence() {
    assert_eq!(render("```"), "<pre class=\"lang\"></pre>");
}

#[test]
fn quote_uses_literal_p_closer() {
    assert_eq!(render("> a\n> b\n"), "<blockquote><p> a<p><p> b<p></blockquote>");
}

#[test]
fn quote_item_begins_right_after_marker() {
    assert_eq!(render(">a\n"), "<blockquote><p>a<p></blockquote>");
}

#[test]
fn ordered_list_two_items() {
    assert_eq!(render("1. one\n2. two\n"), "<ol><li>one</li><li>two</li></ol>");
}

#[test]
fn unordered_list_mixed_markers() {
    assert_eq!(render("= x\n- y\n"), "<ul><li>x</li><li>y</li></ul>");
}

#[test]
fn list_with_one_empty_item_is_kept() {
    assert_eq!(render("1. \n"), "<ol><li></li></ol>");
    assert_eq!(render("- \n"), "<ul><li></li></ul>");
}

#[test]
fn image_with_title() {
    assert_eq!(render("![a](u \"t\")"), "<p><img src=\"u\" alt=\"a\" title=\"t\"></p>");
}

#[test]
fn image_without_title() {
    assert_eq!(render("![a](u)"), "<p><img src=\"u\" alt=\"a\" title=\"\"></p>");
}

#[test]
fn two_paragraphs() {
    assert_eq!(render("a\nb"), "<p>a</p><p>b</p>");
}

#[test]
fn empty_input_renders_nothing() {
    assert_eq!(render(""), "");
}

#[test]
fn nul_byte_becomes_replacement_character() {
    let input: Vec<u8> = vec![0u8];
    let mut buf: Vec<u8> = vec![];
    parse(&input, &mut buf);
    assert_eq!(buf, b"<p>\xEF\xBF\xBD</p>".to_vec());
}

#[test]
fn rendering_is_deterministic() {
    let a = render("# t\n**b** *i* `c`");
    let b = render("# t\n**b** *i* `c`");
    assert_eq!(a, b);
}

#[test]
fn passage_consumes_entire_buffer() {
    let input: Vec<u8> = b"# t\n1. a\n> q\n```c\nx\n```rest **b**".to_vec();
    let (_doc, end) = passage(&input, 0);
    assert_eq!(end, input.len());
}

#[test]
fn star_list_item_beats_italic() {
    assert_eq!(render("* x\n"), "<ul><li>x</li></ul>");
}

#[test]
fn ordered_prefix_requires_digits() {
    assert_eq!(render(". a\n"), "<p>. a</p>");
}

#[test]
fn unclosed_math_display_runs_to_end() {
    assert_eq!(render("$$x"), "<pre class=\"lang-math-display\">x</pre>");
}

#[test]
fn bare_hash_heading_is_empty() {
    assert_eq!(render("#"), "<h1></h1>");
}

#[test]
fn link_title_without_quotes() {
    assert_eq!(render("[a](u t)"), "<p><a href=\"u\" title=\"t\">a</a></p>");
}

#[test]
fn link_without_title() {
    assert_eq!(render("[a](u)"), "<p><a href=\"u\" title=\"\">a</a></p>");
}

#[test]
fn deleted_inside_bold() {
    assert_eq!(render("**a ~~d~~**"), "<p><b>a <del>d</del></b></p>");
}

#[test]
fn code_block_skips_leading_whitespace() {
    assert_eq!(render("  ```c\nx\n```"), "<pre class=\"lang-c\">\nx\n</pre>");
}

#[test]
fn empty_code_span_rejected() {
    assert_eq!(render("``"), "<p>``</p>");
}

#[test]
fn four_tildes_reject_empty_then_unclosed_matches() {
    assert_eq!(render("~~~~"), "<p>~<del>~</del></p>");
}

#[test]
fn mixed_document() {
    assert_eq!(
        render("# T\nw **a**\n1. i\n> q\n```\nb\n```"),
        "<h1> T</h1><p>w <b>a</b></p><ol><li>i</li></ol><blockquote><p> q<p></blockquote><pre class=\"lang\">\nb\n</pre>"
    );
}

#[test]
fn passage_on_empty_suffix() {
    let input: Vec<u8> = b"ab".to_vec();
    let (_doc, end) = passage(&input, 2);
    assert_eq!(end, 2);
}
