//! Document-level laws: facts that hold of the grammar as a whole, proved
//! from the ghost functions that every parser contract is stated over.

use crate::cursor::{spec_character, spec_count, spec_is, spec_is_ws};
use crate::doc::{GBlock, GInline};
use crate::grammar::{
    adv, m_hash, s_bold, s_code_block, s_code_inline, s_deleted, s_heading, s_image, s_inline,
    s_italic, s_math_display, s_math_inline, s_ordered_list, s_olist_items, s_paragraph,
    s_passage, s_plain_paragraph, s_quote, s_quote_items, s_ulist_items, s_unordered_list, s_url,
    spec_digits_end, spec_item_number, spec_item_prefix, spec_quote_prefix, spec_ws_end,
};
use crate::html::{render_block, render_nodes, spec_decimal};
use vstd::prelude::*;
use vstd::string::StringSliceAdditionalSpecFns;

verus! {

/// The parse consumes the entire buffer: from any in-bounds starting
/// position, the document grammar ends exactly at the buffer length.  No
/// run leaves a dangling unconsumed suffix.
pub proof fn lemma_parse_consumes_all(text: Seq<u8>, pos: int)
    requires
        0 <= pos <= text.len(),
    ensures
        s_passage(text, pos).1 == text.len(),
    decreases text.len() - pos,
{
    if pos < text.len() {
        let (b, p) = s_paragraph(text, pos);
        let pc = adv(pos, p, text.len() as int);
        assert(pos < pc <= text.len());
        lemma_parse_consumes_all(text, pc);
    }
}

/// At a `#` byte no inline construct matches: the inline loop consumes it
/// as one literal character.
proof fn lemma_hash_is_literal(text: Seq<u8>, pos: int)
    requires
        0 <= pos < text.len(),
        text[pos] == ('#' as u8),
    ensures
        s_bold(text, pos, true, true) is None,
        s_italic(text, pos, true, true) is None,
        s_deleted(text, pos, true, true) is None,
        s_code_inline(text, pos) is None,
        s_math_inline(text, pos) is None,
        s_image(text, pos) is None,
        s_url(text, pos) is None,
        s_inline(text, pos, false, Seq::empty(), true, true, true).0 == seq![
            GInline::Character { ch: '#' as u32 },
        ] + s_inline(text, pos + 1, false, Seq::empty(), true, true, true).0,
{
    assert(spec_is(text, pos, crate::grammar::m_star2()) ==> text.subrange(pos, pos + 2)[0]
        == ('*' as u8));
    assert(spec_is(text, pos, crate::grammar::m_star()) ==> text.subrange(pos, pos + 1)[0] == (
    '*' as u8));
    assert(spec_is(text, pos, crate::grammar::m_tilde2()) ==> text.subrange(pos, pos + 2)[0] == (
    '~' as u8));
    assert(spec_is(text, pos, crate::grammar::m_tick()) ==> text.subrange(pos, pos + 1)[0] == (
    '`' as u8));
    assert(spec_is(text, pos, crate::grammar::m_dollar()) ==> text.subrange(pos, pos + 1)[0] == (
    '$' as u8));
    assert(spec_is(text, pos, crate::grammar::m_img_open()) ==> text.subrange(pos, pos + 2)[0] == (
    '!' as u8));
    assert(spec_is(text, pos, crate::grammar::m_lbracket()) ==> text.subrange(pos, pos + 1)[0] == (
    '[' as u8));
    assert(spec_character(text, pos) == '#' as u32);
    assert(s_inline(text, pos, false, Seq::empty(), true, true, true).0 == seq![
        GInline::Character { ch: '#' as u32 },
    ] + s_inline(text, pos + 1, false, Seq::empty(), true, true, true).0);
}

/// The first `c` nodes of the inline run starting on a run of `c` or more
/// `#` bytes are the literal `#` characters.
proof fn lemma_hash_run_literal(text: Seq<u8>, pos: int, c: nat)
    requires
        0 <= pos,
        spec_count(text, pos, m_hash()) >= c,
    ensures
        ({
            let nodes = s_inline(text, pos, false, Seq::empty(), true, true, true).0;
            &&& nodes.len() >= c
            &&& forall|j: int|
                0 <= j < c ==> nodes[j] == (GInline::Character { ch: '#' as u32 })
        }),
    decreases c,
{
    if c > 0 {
        assert(spec_is(text, pos, m_hash()));
        assert(text.subrange(pos, pos + 1)[0] == text[pos]);
        assert(text[pos] == ('#' as u8));
        lemma_hash_is_literal(text, pos);
        assert(spec_count(text, pos + 1, m_hash()) >= c - 1);
        lemma_hash_run_literal(text, pos + 1, (c - 1) as nat);
        let nodes = s_inline(text, pos, false, Seq::empty(), true, true, true).0;
        let rest = s_inline(text, pos + 1, false, Seq::empty(), true, true, true).0;
        assert forall|j: int| 0 <= j < c implies nodes[j] == (GInline::Character {
            ch: '#' as u32,
        }) by {
            if j > 0 {
                assert(nodes[j] == rest[j - 1]);
            }
        }
    }
}

/// Heading rank law.  A run of one to six `#` parses as a heading of
/// exactly that rank, rendered `<hN>` … `</hN>` with the literal rank
/// digit.  A run of seven or more is no heading: the block falls through to
/// a plain paragraph that keeps the `#` bytes as literal characters.
pub proof fn lemma_heading_rank(text: Seq<u8>, pos: int)
    requires
        0 <= pos,
    ensures
        ({
            let c = spec_count(text, pos, m_hash());
            let inner = s_inline(text, pos + c, false, Seq::empty(), true, true, true).0;
            1 <= c <= 6 ==> {
                &&& s_paragraph(text, pos).0 == (GBlock::Heading {
                    rank: c as u32,
                    text: GInline::Text { nodes: inner },
                })
                &&& render_block(s_paragraph(text, pos).0) == ("<h").spec_bytes() + seq![
                    (('0' as u8) + c) as u8,
                ] + (">").spec_bytes() + render_nodes(inner) + ("</h").spec_bytes() + seq![
                    (('0' as u8) + c) as u8,
                ] + (">").spec_bytes()
            }
        }),
        ({
            let c = spec_count(text, pos, m_hash());
            let plain = s_inline(text, pos, false, Seq::empty(), true, true, true).0;
            c > 6 ==> {
                &&& s_paragraph(text, pos).0 == (GBlock::PlainParagraph {
                    text: GInline::Text { nodes: plain },
                })
                &&& plain.len() >= c
                &&& forall|j: int|
                    0 <= j < c ==> plain[j] == (GInline::Character { ch: '#' as u32 })
            }
        }),
{
    let c = spec_count(text, pos, m_hash());
    if 1 <= c && c <= 6 {
        assert(s_heading(text, pos) is Some);
        assert(spec_decimal(c) =~= seq![(('0' as u8) + c) as u8]);
    } else if c > 6 {
        assert(spec_is(text, pos, m_hash()));
        assert(text.subrange(pos, pos + 1)[0] == text[pos]);
        assert(text[pos] == ('#' as u8));
        assert(s_heading(text, pos) is None);
        // No list, quote, code fence or display math opens on a `#` byte.
        assert(spec_digits_end(text, pos) == pos);
        assert(spec_is(text, pos, crate::grammar::m_dot_space()) ==> text.subrange(pos, pos + 2)[0]
            == ('.' as u8));
        assert(spec_item_number(text, pos) is None);
        assert(s_olist_items(text, pos).0 =~= Seq::<GInline>::empty());
        assert(s_ordered_list(text, pos) is None);
        assert(spec_item_prefix(text, pos) is None);
        assert(s_ulist_items(text, pos).0 =~= Seq::<GInline>::empty());
        assert(s_unordered_list(text, pos) is None);
        assert(spec_quote_prefix(text, pos) is None);
        assert(s_quote_items(text, pos).0 =~= Seq::<GInline>::empty());
        assert(s_quote(text, pos) is None);
        assert(!spec_is_ws(text[pos]));
        assert(spec_ws_end(text, pos) == pos);
        assert(spec_is(text, pos, crate::grammar::m_tick3()) ==> text.subrange(pos, pos + 3)[0] == (
        '`' as u8));
        assert(s_code_block(text, pos) is None);
        assert(spec_is(text, pos, crate::grammar::m_dollar2()) ==> text.subrange(pos, pos + 2)[0]
            == ('$' as u8));
        assert(s_math_display(text, pos) is None);
        assert(s_paragraph(text, pos) == s_plain_paragraph(text, pos));
        lemma_hash_run_literal(text, pos, c);
    }
}

} // verus!
