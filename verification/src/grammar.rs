//! The grammar, stated as ghost functions over the input byte sequence.
//! Block constructs are tried in a fixed priority order, first match wins,
//! with no backtracking across alternatives; the inline grammar is mutually
//! recursive with per-construct re-entrancy gating.  These functions are the
//! contract the exec parser is proved against.

use crate::cursor::{
    spec_character, spec_count, spec_get_until, spec_get_until_sp, spec_get_word, spec_is,
    spec_is_ws,
};
use crate::doc::{glen_nodes, GBlock, GInline};
use crate::html::render_blocks;
use vstd::prelude::*;

verus! {

pub open spec fn m_hash() -> Seq<u8> {
    seq![('#' as u8)]
}

pub open spec fn m_star() -> Seq<u8> {
    seq![('*' as u8)]
}

pub open spec fn m_star2() -> Seq<u8> {
    seq![('*' as u8), ('*' as u8)]
}

pub open spec fn m_tilde2() -> Seq<u8> {
    seq![('~' as u8), ('~' as u8)]
}

pub open spec fn m_tick() -> Seq<u8> {
    seq![('`' as u8)]
}

pub open spec fn m_tick3() -> Seq<u8> {
    seq![('`' as u8), ('`' as u8), ('`' as u8)]
}

pub open spec fn m_dollar() -> Seq<u8> {
    seq![('$' as u8)]
}

pub open spec fn m_dollar2() -> Seq<u8> {
    seq![('$' as u8), ('$' as u8)]
}

pub open spec fn m_img_open() -> Seq<u8> {
    seq![('!' as u8), ('[' as u8)]
}

pub open spec fn m_lbracket() -> Seq<u8> {
    seq![('[' as u8)]
}

pub open spec fn m_rbracket() -> Seq<u8> {
    seq![(']' as u8)]
}

pub open spec fn m_lparen() -> Seq<u8> {
    seq![('(' as u8)]
}

pub open spec fn m_rparen() -> Seq<u8> {
    seq![(')' as u8)]
}

pub open spec fn m_space() -> Seq<u8> {
    seq![(' ' as u8)]
}

pub open spec fn m_dot_space() -> Seq<u8> {
    seq![('.' as u8), (' ' as u8)]
}

/// Progress guard for the recursive definitions: takes the callee's end
/// position when it moved forward and stayed in bounds, else one step.  The
/// parser proves every guarded end does move forward, so the guard is the
/// identity on every path the parser takes.
pub open spec fn adv(pos: int, end: int, limit: int) -> int {
    if pos < end && end <= limit {
        end
    } else {
        pos + 1
    }
}

/// A title written between double quotes sheds them; anything else is kept
/// verbatim.
pub open spec fn strip_quotes(s: Seq<u8>) -> Seq<u8> {
    if s.len() >= 2 && s[0] == ('"' as u8) && s[s.len() - 1] == ('"' as u8) {
        s.subrange(1, s.len() - 1)
    } else {
        s
    }
}

/// End of the run of ASCII digits starting at `pos`.
pub open spec fn spec_digits_end(text: Seq<u8>, pos: int) -> int
    decreases text.len() - pos,
{
    if 0 <= pos < text.len() && ('0' as u8) <= text[pos] <= ('9' as u8) {
        spec_digits_end(text, pos + 1)
    } else {
        pos
    }
}

/// An ordered-list item prefix: one or more digits, then `". "`.  Yields
/// the position after the prefix.
pub open spec fn spec_item_number(text: Seq<u8>, pos: int) -> Option<int> {
    let d = spec_digits_end(text, pos);
    if d > pos && spec_is(text, d, m_dot_space()) {
        Some(d + 2)
    } else {
        None
    }
}

/// An unordered-list item prefix: one of `-` `=` `*`, then a space.
pub open spec fn spec_item_prefix(text: Seq<u8>, pos: int) -> Option<int> {
    if 0 <= pos < text.len() && (text[pos] == ('-' as u8) || text[pos] == ('=' as u8) || text[pos]
        == ('*' as u8)) && spec_is(text, pos + 1, m_space()) {
        Some(pos + 2)
    } else {
        None
    }
}

/// A quote item prefix: the `>` marker alone; the item begins right after
/// it.
pub open spec fn spec_quote_prefix(text: Seq<u8>, pos: int) -> Option<int> {
    if 0 <= pos < text.len() && text[pos] == ('>' as u8) {
        Some(pos + 1)
    } else {
        None
    }
}

/// End of the run of ASCII whitespace starting at `pos`.
pub open spec fn spec_ws_end(text: Seq<u8>, pos: int) -> int
    decreases text.len() - pos,
{
    if 0 <= pos < text.len() && spec_is_ws(text[pos]) {
        spec_ws_end(text, pos + 1)
    } else {
        pos
    }
}

/// The inline grammar: a run of span constructs, tried in order, ending on
/// the `stop_at` literal, a bare newline in single-line mode, or the end of
/// the input.  The third result says whether the run ended on `stop_at`.
pub open spec fn s_inline(
    text: Seq<u8>,
    pos: int,
    multi_lines: bool,
    stop_at: Seq<u8>,
    enable_bold: bool,
    enable_italic: bool,
    enable_deleted: bool,
) -> (Seq<GInline>, int, bool)
    decreases text.len() - pos, 1int,
{
    if !(0 <= pos < text.len()) {
        (Seq::empty(), pos, false)
    } else if spec_is(text, pos, stop_at) {
        (Seq::empty(), pos + stop_at.len(), true)
    } else if enable_bold && s_bold(text, pos, enable_italic, enable_deleted) is Some {
        let (n, p) = s_bold(text, pos, enable_italic, enable_deleted).unwrap();
        let (rest, e, st) = s_inline(
            text,
            adv(pos, p, text.len() as int),
            multi_lines,
            stop_at,
            enable_bold,
            enable_italic,
            enable_deleted,
        );
        (seq![n] + rest, e, st)
    } else if enable_italic && s_italic(text, pos, enable_bold, enable_deleted) is Some {
        let (n, p) = s_italic(text, pos, enable_bold, enable_deleted).unwrap();
        let (rest, e, st) = s_inline(
            text,
            adv(pos, p, text.len() as int),
            multi_lines,
            stop_at,
            enable_bold,
            enable_italic,
            enable_deleted,
        );
        (seq![n] + rest, e, st)
    } else if enable_deleted && s_deleted(text, pos, enable_bold, enable_italic) is Some {
        let (n, p) = s_deleted(text, pos, enable_bold, enable_italic).unwrap();
        let (rest, e, st) = s_inline(
            text,
            adv(pos, p, text.len() as int),
            multi_lines,
            stop_at,
            enable_bold,
            enable_italic,
            enable_deleted,
        );
        (seq![n] + rest, e, st)
    } else if s_code_inline(text, pos) is Some {
        let (n, p) = s_code_inline(text, pos).unwrap();
        let (rest, e, st) = s_inline(
            text,
            adv(pos, p, text.len() as int),
            multi_lines,
            stop_at,
            enable_bold,
            enable_italic,
            enable_deleted,
        );
        (seq![n] + rest, e, st)
    } else if s_math_inline(text, pos) is Some {
        let (n, p) = s_math_inline(text, pos).unwrap();
        let (rest, e, st) = s_inline(
            text,
            adv(pos, p, text.len() as int),
            multi_lines,
            stop_at,
            enable_bold,
            enable_italic,
            enable_deleted,
        );
        (seq![n] + rest, e, st)
    } else if s_image(text, pos) is Some {
        let (n, p) = s_image(text, pos).unwrap();
        let (rest, e, st) = s_inline(
            text,
            adv(pos, p, text.len() as int),
            multi_lines,
            stop_at,
            enable_bold,
            enable_italic,
            enable_deleted,
        );
        (seq![n] + rest, e, st)
    } else if s_url(text, pos) is Some {
        let (n, p) = s_url(text, pos).unwrap();
        let (rest, e, st) = s_inline(
            text,
            adv(pos, p, text.len() as int),
            multi_lines,
            stop_at,
            enable_bold,
            enable_italic,
            enable_deleted,
        );
        (seq![n] + rest, e, st)
    } else if !multi_lines && text[pos] == ('\n' as u8) {
        (Seq::empty(), pos + 1, false)
    } else {
        let ch = spec_character(text, pos);
        let (rest, e, st) = s_inline(
            text,
            pos + 1,
            multi_lines,
            stop_at,
            enable_bold,
            enable_italic,
            enable_deleted,
        );
        (seq![GInline::Character { ch }] + rest, e, st)
    }
}

/// Bold: `**`, then an inline run gated against bold, closed by `**`.
/// The span is discarded when the closing marker is missing or the enclosed
/// content has length zero.
pub open spec fn s_bold(text: Seq<u8>, pos: int, enable_italic: bool, enable_deleted: bool) -> Option<
    (GInline, int),
>
    decreases text.len() - pos, 0int,
{
    if spec_is(text, pos, m_star2()) {
        let (nodes, e, st) = s_inline(
            text,
            pos + 2,
            false,
            m_star2(),
            false,
            enable_italic,
            enable_deleted,
        );
        if st && glen_nodes(nodes) > 0 {
            Some((GInline::Bold { nodes }, e))
        } else {
            None
        }
    } else {
        None
    }
}

/// Italic: `*` … `*`, gated against italic inside its own span.  Only a
/// span of length zero is discarded: a run cut short by a newline or the
/// end of input keeps what it gathered.
pub open spec fn s_italic(text: Seq<u8>, pos: int, enable_bold: bool, enable_deleted: bool) -> Option<
    (GInline, int),
>
    decreases text.len() - pos, 0int,
{
    if spec_is(text, pos, m_star()) {
        let (nodes, e, st) = s_inline(
            text,
            pos + 1,
            false,
            m_star(),
            enable_bold,
            false,
            enable_deleted,
        );
        if glen_nodes(nodes) > 0 {
            Some((GInline::Italic { nodes }, e))
        } else {
            None
        }
    } else {
        None
    }
}

/// Deleted: `~~` … `~~`, gated against itself.  As with italic, only a
/// zero-length span is discarded.
pub open spec fn s_deleted(text: Seq<u8>, pos: int, enable_bold: bool, enable_italic: bool) -> Option<
    (GInline, int),
>
    decreases text.len() - pos, 0int,
{
    if spec_is(text, pos, m_tilde2()) {
        let (nodes, e, st) = s_inline(
            text,
            pos + 2,
            false,
            m_tilde2(),
            enable_bold,
            enable_italic,
            false,
        );
        if glen_nodes(nodes) > 0 {
            Some((GInline::Deleted { nodes }, e))
        } else {
            None
        }
    } else {
        None
    }
}

/// Inline code: `` ` ``, then a single-line scan to the closing backtick.
/// Empty content is discarded.
pub open spec fn s_code_inline(text: Seq<u8>, pos: int) -> Option<(GInline, int)> {
    if spec_is(text, pos, m_tick()) {
        let r = spec_get_until(text, pos + 1, m_tick(), false);
        if r.text.len() > 0 {
            Some((GInline::CodeInline { code: r.text }, r.pos))
        } else {
            None
        }
    } else {
        None
    }
}

/// Inline math: `$`, then a single-line scan that terminates on a backtick
/// rather than a dollar sign: a quirk preserved on purpose as observable
/// behavior.
pub open spec fn s_math_inline(text: Seq<u8>, pos: int) -> Option<(GInline, int)> {
    if spec_is(text, pos, m_dollar()) {
        let r = spec_get_until(text, pos + 1, m_tick(), false);
        if r.text.len() > 0 {
            Some((GInline::MathInline { formula: r.text }, r.pos))
        } else {
            None
        }
    } else {
        None
    }
}

/// The bracketed tail shared by images and links: text to `]`, then `(`,
/// a URL bounded by the first space or closing parenthesis, and an optional
/// space-led title running to the closing parenthesis.  Any missing required
/// delimiter aborts the whole construct.  Yields (text, url, title, end).
pub open spec fn s_link_tail(text: Seq<u8>, pos: int) -> Option<(Seq<u8>, Seq<u8>, Seq<u8>, int)> {
    let r1 = spec_get_until(text, pos, m_rbracket(), false);
    if !r1.reached_target {
        None
    } else {
        let p2 = r1.pos;
        if !spec_is(text, p2, m_lparen()) {
            None
        } else {
            let r2 = spec_get_until_sp(text, p2 + 1, false);
            if !r2.reached_target {
                None
            } else {
                let p4 = r2.pos - 1;
                if spec_is(text, p4, m_space()) {
                    let r3 = spec_get_until(text, p4 + 1, m_rparen(), false);
                    if !r3.reached_target {
                        None
                    } else {
                        Some((r1.text, r2.text, strip_quotes(r3.text), r3.pos))
                    }
                } else if spec_is(text, p4, m_rparen()) {
                    Some((r1.text, r2.text, Seq::empty(), p4 + 1))
                } else {
                    None
                }
            }
        }
    }
}

/// Image: `![` then the bracketed tail.
pub open spec fn s_image(text: Seq<u8>, pos: int) -> Option<(GInline, int)> {
    if spec_is(text, pos, m_img_open()) {
        match s_link_tail(text, pos + 2) {
            Some((alt, url, title, e)) => Some((GInline::Image { alt, url, title }, e)),
            None => None,
        }
    } else {
        None
    }
}

/// Link: `[` then the bracketed tail.
pub open spec fn s_url(text: Seq<u8>, pos: int) -> Option<(GInline, int)> {
    if spec_is(text, pos, m_lbracket()) {
        match s_link_tail(text, pos + 1) {
            Some((txt, url, title, e)) => Some((GInline::Url { text: txt, url, title }, e)),
            None => None,
        }
    } else {
        None
    }
}

/// Heading: a run of 1 to 6 `#`, then an inline run to the end of the line.
/// A longer run is no heading and falls through to the paragraph fallback.
pub open spec fn s_heading(text: Seq<u8>, pos: int) -> Option<(GBlock, int)> {
    let rank = spec_count(text, pos, m_hash());
    if rank < 1 {
        None
    } else {
        let (nodes, e, st) = s_inline(text, pos + rank, false, Seq::empty(), true, true, true);
        if rank > 6 {
            None
        } else {
            Some((GBlock::Heading { rank: rank as u32, text: GInline::Text { nodes } }, e))
        }
    }
}

/// Repeated ordered-list items.
pub open spec fn s_olist_items(text: Seq<u8>, pos: int) -> (Seq<GInline>, int)
    decreases text.len() - pos,
{
    match spec_item_number(text, pos) {
        None => (Seq::empty(), pos),
        Some(p1) => {
            let p1c = adv(pos, p1, text.len() as int);
            let (nodes, p2, st) = s_inline(text, p1c, false, Seq::empty(), true, true, true);
            let p2c = adv(pos, p2, text.len() as int);
            let (rest, e) = s_olist_items(text, p2c);
            (seq![GInline::Text { nodes }] + rest, e)
        },
    }
}

/// Repeated unordered-list items.
pub open spec fn s_ulist_items(text: Seq<u8>, pos: int) -> (Seq<GInline>, int)
    decreases text.len() - pos,
{
    match spec_item_prefix(text, pos) {
        None => (Seq::empty(), pos),
        Some(p1) => {
            let p1c = adv(pos, p1, text.len() as int);
            let (nodes, p2, st) = s_inline(text, p1c, false, Seq::empty(), true, true, true);
            let p2c = adv(pos, p2, text.len() as int);
            let (rest, e) = s_ulist_items(text, p2c);
            (seq![GInline::Text { nodes }] + rest, e)
        },
    }
}

/// Repeated quote items.
pub open spec fn s_quote_items(text: Seq<u8>, pos: int) -> (Seq<GInline>, int)
    decreases text.len() - pos,
{
    match spec_quote_prefix(text, pos) {
        None => (Seq::empty(), pos),
        Some(p1) => {
            let p1c = adv(pos, p1, text.len() as int);
            let (nodes, p2, st) = s_inline(text, p1c, false, Seq::empty(), true, true, true);
            let p2c = adv(pos, p2, text.len() as int);
            let (rest, e) = s_quote_items(text, p2c);
            (seq![GInline::Text { nodes }] + rest, e)
        },
    }
}

/// Ordered list: one or more items; rejected only when no item matched.
pub open spec fn s_ordered_list(text: Seq<u8>, pos: int) -> Option<(GBlock, int)> {
    let (items, e) = s_olist_items(text, pos);
    if items.len() > 0 {
        Some((GBlock::OrderedList { list: items }, e))
    } else {
        None
    }
}

/// Unordered list: as the ordered list, with the `-` `=` `*` markers.
pub open spec fn s_unordered_list(text: Seq<u8>, pos: int) -> Option<(GBlock, int)> {
    let (items, e) = s_ulist_items(text, pos);
    if items.len() > 0 {
        Some((GBlock::UnorderedList { list: items }, e))
    } else {
        None
    }
}

/// Quote: one or more `>`-led items; rejected only when no item matched.
pub open spec fn s_quote(text: Seq<u8>, pos: int) -> Option<(GBlock, int)> {
    let (items, e) = s_quote_items(text, pos);
    if items.len() > 0 {
        Some((GBlock::Quote { list: items }, e))
    } else {
        None
    }
}

/// Code block: optional leading whitespace, a ``` fence, an optional
/// language word, then a multi-line scan to the closing fence.  Once the
/// fence is seen the construct never fails.
pub open spec fn s_code_block(text: Seq<u8>, pos: int) -> Option<(GBlock, int)> {
    let w = spec_ws_end(text, pos);
    if spec_is(text, w, m_tick3()) {
        let p = w + 3;
        let (lang, p2): (Seq<u8>, int) = match spec_get_word(text, p) {
            Some((s, e)) => (s, e),
            None => (Seq::empty(), p),
        };
        let r = spec_get_until(text, p2, m_tick3(), true);
        Some((GBlock::CodeBlock { language: lang, text: r.text }, r.pos))
    } else {
        None
    }
}

/// Display math: `$$`, then a multi-line scan to the closing `$$`.
pub open spec fn s_math_display(text: Seq<u8>, pos: int) -> Option<(GBlock, int)> {
    if spec_is(text, pos, m_dollar2()) {
        let r = spec_get_until(text, pos + 2, m_dollar2(), true);
        Some((GBlock::MathDisplay { formula: r.text }, r.pos))
    } else {
        None
    }
}

/// The unconditional fallback: one line-bounded inline run.
pub open spec fn s_plain_paragraph(text: Seq<u8>, pos: int) -> (GBlock, int) {
    let (nodes, e, st) = s_inline(text, pos, false, Seq::empty(), true, true, true);
    (GBlock::PlainParagraph { text: GInline::Text { nodes } }, e)
}

/// One paragraph-level construct, by fixed priority, first match wins.
pub open spec fn s_paragraph(text: Seq<u8>, pos: int) -> (GBlock, int) {
    if s_heading(text, pos) is Some {
        s_heading(text, pos).unwrap()
    } else if s_ordered_list(text, pos) is Some {
        s_ordered_list(text, pos).unwrap()
    } else if s_unordered_list(text, pos) is Some {
        s_unordered_list(text, pos).unwrap()
    } else if s_quote(text, pos) is Some {
        s_quote(text, pos).unwrap()
    } else if s_code_block(text, pos) is Some {
        s_code_block(text, pos).unwrap()
    } else if s_math_display(text, pos) is Some {
        s_math_display(text, pos).unwrap()
    } else {
        s_plain_paragraph(text, pos)
    }
}

/// The whole document: paragraphs until the input is exhausted.
pub open spec fn s_passage(text: Seq<u8>, pos: int) -> (Seq<GBlock>, int)
    decreases text.len() - pos,
{
    if !(0 <= pos < text.len()) {
        (Seq::empty(), pos)
    } else {
        let (b, p) = s_paragraph(text, pos);
        let pc = adv(pos, p, text.len() as int);
        let (rest, e) = s_passage(text, pc);
        (seq![b] + rest, e)
    }
}

/// The full pipeline on one input: parse, then serialize.  Rendering is a
/// pure function of the input: this is the sequence `parse` appends.
pub open spec fn html_of(input: Seq<u8>) -> Seq<u8> {
    render_blocks(s_passage(input, 0).0)
}

} // verus!
