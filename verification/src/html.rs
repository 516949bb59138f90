//! Serialization of the document tree into HTML: a pure, non-mutating
//! post-order walk.  The ghost functions here are the authoritative output
//! mapping; the exec methods reproduce it byte for byte into a `Buf`.

use crate::cursor::CH_REPLACEMENT;
use crate::doc::{
    view_blocks, view_inline, view_nodes, Block, GBlock, GInline, GPassage, Inline, Passage,
};
use crate::sink::Buf;
use vstd::prelude::*;
use vstd::string::StringSliceAdditionalSpecFns;

verus! {

/// Decimal digits of `n`, most significant first.
pub open spec fn spec_decimal(n: nat) -> Seq<u8>
    decreases n,
{
    if n < 10 {
        seq![(('0' as u8) + n) as u8]
    } else {
        spec_decimal(n / 10) + seq![(('0' as u8) + n % 10) as u8]
    }
}

/// The bytes a `Character` node emits: the literal byte, or the UTF-8 form
/// of the replacement character that stands for a stored NUL.
pub open spec fn spec_char_bytes(ch: u32) -> Seq<u8> {
    if ch == CH_REPLACEMENT {
        seq![0xefu8, 0xbfu8, 0xbdu8]
    } else {
        seq![ch as u8]
    }
}

/// HTML for one inline node.
pub open spec fn render_inline(n: GInline) -> Seq<u8>
    decreases n,
{
    match n {
        GInline::Text { nodes } => render_nodes(nodes),
        GInline::Bold { nodes } => ("<b>").spec_bytes() + render_nodes(nodes) + (
        "</b>").spec_bytes(),
        GInline::Italic { nodes } => ("<i>").spec_bytes() + render_nodes(nodes) + (
        "</i>").spec_bytes(),
        GInline::Deleted { nodes } => ("<del>").spec_bytes() + render_nodes(nodes) + (
        "</del>").spec_bytes(),
        GInline::CodeInline { code } => ("<code>").spec_bytes() + code + ("</code>").spec_bytes(),
        GInline::MathInline { formula } => ("<div class=\"lang-math-inline\">").spec_bytes()
            + formula + ("</div>").spec_bytes(),
        GInline::Image { alt, url, title } => ("<img src=\"").spec_bytes() + url + (
        "\" alt=\"").spec_bytes() + alt + ("\" title=\"").spec_bytes() + title + (
        "\">").spec_bytes(),
        GInline::Url { text, url, title } => ("<a href=\"").spec_bytes() + url + (
        "\" title=\"").spec_bytes() + title + ("\">").spec_bytes() + text + ("</a>").spec_bytes(),
        GInline::Character { ch } => spec_char_bytes(ch),
    }
}

/// HTML for a run of inline nodes, in order.
pub open spec fn render_nodes(s: Seq<GInline>) -> Seq<u8>
    decreases s,
{
    if s.len() == 0 {
        Seq::empty()
    } else {
        render_inline(s[0]) + render_nodes(s.drop_first())
    }
}

/// HTML for list items: each item wrapped in `<li>`…`</li>`.
pub open spec fn render_list_items(s: Seq<GInline>) -> Seq<u8>
    decreases s,
{
    if s.len() == 0 {
        Seq::empty()
    } else {
        ("<li>").spec_bytes() + render_inline(s[0]) + ("</li>").spec_bytes() + render_list_items(
            s.drop_first(),
        )
    }
}

/// HTML for quote items.  The closing tag is the literal `<p>`, not `</p>`:
/// a quirk of the fixed output mapping, preserved on purpose.
pub open spec fn render_quote_items(s: Seq<GInline>) -> Seq<u8>
    decreases s,
{
    if s.len() == 0 {
        Seq::empty()
    } else {
        ("<p>").spec_bytes() + render_inline(s[0]) + ("<p>").spec_bytes() + render_quote_items(
            s.drop_first(),
        )
    }
}

/// HTML for one block node.
pub open spec fn render_block(b: GBlock) -> Seq<u8> {
    match b {
        GBlock::PlainParagraph { text } => ("<p>").spec_bytes() + render_inline(text) + (
        "</p>").spec_bytes(),
        GBlock::Heading { rank, text } => ("<h").spec_bytes() + spec_decimal(rank as nat) + (
        ">").spec_bytes() + render_inline(text) + ("</h").spec_bytes() + spec_decimal(rank as nat)
            + (">").spec_bytes(),
        GBlock::OrderedList { list } => ("<ol>").spec_bytes() + render_list_items(list) + (
        "</ol>").spec_bytes(),
        GBlock::UnorderedList { list } => ("<ul>").spec_bytes() + render_list_items(list) + (
        "</ul>").spec_bytes(),
        GBlock::Quote { list } => ("<blockquote>").spec_bytes() + render_quote_items(list) + (
        "</blockquote>").spec_bytes(),
        GBlock::CodeBlock { language, text } => ("<pre class=\"lang").spec_bytes() + (if language.len()
            > 0 {
            ("-").spec_bytes() + language
        } else {
            Seq::empty()
        }) + ("\">").spec_bytes() + text + ("</pre>").spec_bytes(),
        GBlock::MathDisplay { formula } => ("<pre class=\"lang-math-display\">").spec_bytes()
            + formula + ("</pre>").spec_bytes(),
    }
}

/// HTML for a run of blocks, in order.
pub open spec fn render_blocks(s: Seq<GBlock>) -> Seq<u8>
    decreases s,
{
    if s.len() == 0 {
        Seq::empty()
    } else {
        render_block(s[0]) + render_blocks(s.drop_first())
    }
}

/// HTML for a whole document: the concatenation of its blocks' output.
pub open spec fn render_passage(d: GPassage) -> Seq<u8> {
    render_blocks(d.paragraphs)
}

pub proof fn lemma_render_nodes_push(s: Seq<GInline>, x: GInline)
    ensures
        render_nodes(s.push(x)) == render_nodes(s) + render_inline(x),
    decreases s,
{
    assert(s.push(x).len() == s.len() + 1);
    if s.len() == 0 {
        assert(s.push(x)[0] == x);
        assert(s.push(x).drop_first() =~= Seq::<GInline>::empty());
        assert(render_nodes(Seq::<GInline>::empty()) == Seq::<u8>::empty());
        assert(s =~= Seq::<GInline>::empty());
        assert(render_inline(x) + Seq::<u8>::empty() =~= render_inline(x));
        assert(Seq::<u8>::empty() + render_inline(x) =~= render_inline(x));
    } else {
        assert(s.push(x)[0] == s[0]);
        assert(s.push(x).drop_first() =~= s.drop_first().push(x));
        lemma_render_nodes_push(s.drop_first(), x);
        assert(render_nodes(s.push(x)) == render_inline(s[0]) + (render_nodes(s.drop_first())
            + render_inline(x)));
        assert(render_inline(s[0]) + (render_nodes(s.drop_first()) + render_inline(x)) =~= (
        render_inline(s[0]) + render_nodes(s.drop_first())) + render_inline(x));
    }
}

pub proof fn lemma_render_list_items_push(s: Seq<GInline>, x: GInline)
    ensures
        render_list_items(s.push(x)) == render_list_items(s) + ("<li>").spec_bytes()
            + render_inline(x) + ("</li>").spec_bytes(),
    decreases s,
{
    assert(s.push(x).len() == s.len() + 1);
    let piece = ("<li>").spec_bytes() + render_inline(x) + ("</li>").spec_bytes();
    if s.len() == 0 {
        assert(s.push(x)[0] == x);
        assert(s.push(x).drop_first() =~= Seq::<GInline>::empty());
        assert(render_list_items(Seq::<GInline>::empty()) == Seq::<u8>::empty());
        assert(s =~= Seq::<GInline>::empty());
        assert(render_list_items(s.push(x)) =~= Seq::<u8>::empty() + piece);
        assert(render_list_items(s) =~= Seq::<u8>::empty());
        assert(Seq::<u8>::empty() + piece =~= piece);
        assert(render_list_items(s) + piece =~= piece);
    } else {
        assert(s.push(x)[0] == s[0]);
        assert(s.push(x).drop_first() =~= s.drop_first().push(x));
        lemma_render_list_items_push(s.drop_first(), x);
        let head = ("<li>").spec_bytes() + render_inline(s[0]) + ("</li>").spec_bytes();
        assert(render_list_items(s.push(x)) =~= head + (render_list_items(s.drop_first()) + piece));
        assert(head + (render_list_items(s.drop_first()) + piece) =~= (head + render_list_items(
            s.drop_first(),
        )) + piece);
        assert(render_list_items(s) =~= head + render_list_items(s.drop_first()));
    }
}

pub proof fn lemma_render_quote_items_push(s: Seq<GInline>, x: GInline)
    ensures
        render_quote_items(s.push(x)) == render_quote_items(s) + ("<p>").spec_bytes()
            + render_inline(x) + ("<p>").spec_bytes(),
    decreases s,
{
    assert(s.push(x).len() == s.len() + 1);
    let piece = ("<p>").spec_bytes() + render_inline(x) + ("<p>").spec_bytes();
    if s.len() == 0 {
        assert(s.push(x)[0] == x);
        assert(s.push(x).drop_first() =~= Seq::<GInline>::empty());
        assert(render_quote_items(Seq::<GInline>::empty()) == Seq::<u8>::empty());
        assert(s =~= Seq::<GInline>::empty());
        assert(render_quote_items(s.push(x)) =~= Seq::<u8>::empty() + piece);
        assert(render_quote_items(s) =~= Seq::<u8>::empty());
        assert(Seq::<u8>::empty() + piece =~= piece);
        assert(render_quote_items(s) + piece =~= piece);
    } else {
        assert(s.push(x)[0] == s[0]);
        assert(s.push(x).drop_first() =~= s.drop_first().push(x));
        lemma_render_quote_items_push(s.drop_first(), x);
        let head = ("<p>").spec_bytes() + render_inline(s[0]) + ("<p>").spec_bytes();
        assert(render_quote_items(s.push(x)) =~= head + (render_quote_items(s.drop_first())
            + piece));
        assert(head + (render_quote_items(s.drop_first()) + piece) =~= (head + render_quote_items(
            s.drop_first(),
        )) + piece);
        assert(render_quote_items(s) =~= head + render_quote_items(s.drop_first()));
    }
}

pub proof fn lemma_render_blocks_push(s: Seq<GBlock>, x: GBlock)
    ensures
        render_blocks(s.push(x)) == render_blocks(s) + render_block(x),
    decreases s,
{
    assert(s.push(x).len() == s.len() + 1);
    if s.len() == 0 {
        assert(s.push(x)[0] == x);
        assert(s.push(x).drop_first() =~= Seq::<GBlock>::empty());
        assert(render_blocks(Seq::<GBlock>::empty()) == Seq::<u8>::empty());
        assert(s =~= Seq::<GBlock>::empty());
        assert(render_block(x) + Seq::<u8>::empty() =~= render_block(x));
        assert(Seq::<u8>::empty() + render_block(x) =~= render_block(x));
    } else {
        assert(s.push(x)[0] == s[0]);
        assert(s.push(x).drop_first() =~= s.drop_first().push(x));
        lemma_render_blocks_push(s.drop_first(), x);
        assert(render_blocks(s.push(x)) == render_block(s[0]) + (render_blocks(s.drop_first())
            + render_block(x)));
        assert(render_block(s[0]) + (render_blocks(s.drop_first()) + render_block(x)) =~= (
        render_block(s[0]) + render_blocks(s.drop_first())) + render_block(x));
    }
}

/// Writes the decimal digits of `n`.
pub fn push_decimal<B: Buf>(buf: &mut B, n: u32)
    ensures
        final(buf).contents() == old(buf).contents() + spec_decimal(n as nat),
    decreases n,
{
    if n < 10 {
        buf.push(('0' as u8) + (n as u8));
    } else {
        push_decimal(buf, n / 10);
        buf.push(('0' as u8) + ((n % 10) as u8));
        assert(old(buf).contents() + spec_decimal((n / 10) as nat) + seq![(('0' as u8) + (
        n as nat) % 10) as u8] =~= old(buf).contents() + spec_decimal(n as nat));
    }
}

/// Writes the HTML of a run of inline nodes, in order.
pub fn write_nodes<B: Buf>(nodes: &Vec<Inline>, buf: &mut B)
    ensures
        final(buf).contents() == old(buf).contents() + render_nodes(view_nodes(nodes@)),
    decreases nodes@,
{
    proof {
        crate::doc::lemma_view_nodes_index(nodes@);
    }
    let ghost gs = view_nodes(nodes@);
    let ghost start = buf.contents();
    proof {
        assert(gs.take(0) =~= Seq::<GInline>::empty());
        assert(start + Seq::<u8>::empty() =~= start);
    }
    let mut i: usize = 0;
    while i < nodes.len()
        invariant
            gs == view_nodes(nodes@),
            gs.len() == nodes@.len(),
            forall|j: int| 0 <= j < nodes@.len() ==> gs[j] == view_inline(nodes@[j]),
            0 <= i <= nodes@.len(),
            buf.contents() == start + render_nodes(gs.take(i as int)),
        decreases nodes@.len() - i,
    {
        proof {
            assert(decreases_to!(nodes@ => nodes@[i as int]));
        }
        let e = &nodes[i];
        e.write_to_buf(buf);
        proof {
            assert(gs.take(i + 1) =~= gs.take(i as int).push(gs[i as int]));
            lemma_render_nodes_push(gs.take(i as int), gs[i as int]);
            assert(start + render_nodes(gs.take(i as int)) + render_inline(gs[i as int]) =~= start
                + render_nodes(gs.take(i + 1)));
        }
        i = i + 1;
    }
    proof {
        assert(gs.take(nodes@.len() as int) =~= gs);
    }
}

impl Inline {
    /// Emits this node's HTML, recursing into its children.
    pub fn write_to_buf<B: Buf>(&self, buf: &mut B)
        ensures
            final(buf).contents() == old(buf).contents() + render_inline(self@),
        decreases *self,
    {
        let ghost start = buf.contents();
        match self {
            Inline::Text { nodes } => {
                write_nodes(nodes, buf);
            },
            Inline::Bold { nodes } => {
                buf.push_str("<b>");
                write_nodes(nodes, buf);
                buf.push_str("</b>");
                proof {
                    assert(start + ("<b>").spec_bytes() + render_nodes(view_nodes(nodes@)) + (
                    "</b>").spec_bytes() =~= start + (("<b>").spec_bytes() + render_nodes(
                        view_nodes(nodes@),
                    ) + ("</b>").spec_bytes()));
                }
            },
            Inline::Italic { nodes } => {
                buf.push_str("<i>");
                write_nodes(nodes, buf);
                buf.push_str("</i>");
                proof {
                    assert(start + ("<i>").spec_bytes() + render_nodes(view_nodes(nodes@)) + (
                    "</i>").spec_bytes() =~= start + (("<i>").spec_bytes() + render_nodes(
                        view_nodes(nodes@),
                    ) + ("</i>").spec_bytes()));
                }
            },
            Inline::Deleted { nodes } => {
                buf.push_str("<del>");
                write_nodes(nodes, buf);
                buf.push_str("</del>");
                proof {
                    assert(start + ("<del>").spec_bytes() + render_nodes(view_nodes(nodes@)) + (
                    "</del>").spec_bytes() =~= start + (("<del>").spec_bytes() + render_nodes(
                        view_nodes(nodes@),
                    ) + ("</del>").spec_bytes()));
                }
            },
            Inline::CodeInline { code } => {
                buf.push_str("<code>");
                buf.push_vec(code);
                buf.push_str("</code>");
                proof {
                    assert(start + ("<code>").spec_bytes() + code@ + ("</code>").spec_bytes() =~=
                    start + (("<code>").spec_bytes() + code@ + ("</code>").spec_bytes()));
                }
            },
            Inline::MathInline { formula } => {
                buf.push_str("<div class=\"lang-math-inline\">");
                buf.push_vec(formula);
                buf.push_str("</div>");
                proof {
                    assert(start + ("<div class=\"lang-math-inline\">").spec_bytes() + formula@ + (
                    "</div>").spec_bytes() =~= start + (("<div class=\"lang-math-inline\">").spec_bytes()
                        + formula@ + ("</div>").spec_bytes()));
                }
            },
            Inline::Image { alt, url, title } => {
                buf.push_str("<img src=\"");
                buf.push_vec(url);
                buf.push_str("\" alt=\"");
                buf.push_vec(alt);
                buf.push_str("\" title=\"");
                buf.push_vec(title);
                buf.push_str("\">");
                proof {
                    assert(start + ("<img src=\"").spec_bytes() + url@ + ("\" alt=\"").spec_bytes()
                        + alt@ + ("\" title=\"").spec_bytes() + title@ + ("\">").spec_bytes() =~=
                    start + (("<img src=\"").spec_bytes() + url@ + ("\" alt=\"").spec_bytes() + alt@
                        + ("\" title=\"").spec_bytes() + title@ + ("\">").spec_bytes()));
                }
            },
            Inline::Url { text, url, title } => {
                buf.push_str("<a href=\"");
                buf.push_vec(url);
                buf.push_str("\" title=\"");
                buf.push_vec(title);
                buf.push_str("\">");
                buf.push_vec(text);
                buf.push_str("</a>");
                proof {
                    assert(start + ("<a href=\"").spec_bytes() + url@ + ("\" title=\"").spec_bytes()
                        + title@ + ("\">").spec_bytes() + text@ + ("</a>").spec_bytes() =~= start
                        + (("<a href=\"").spec_bytes() + url@ + ("\" title=\"").spec_bytes()
                        + title@ + ("\">").spec_bytes() + text@ + ("</a>").spec_bytes()));
                }
            },
            Inline::Character { ch } => {
                if *ch == CH_REPLACEMENT {
                    buf.push(0xef);
                    buf.push(0xbf);
                    buf.push(0xbd);
                    proof {
                        assert(start + seq![0xefu8] + seq![0xbfu8] + seq![0xbdu8] =~= start + seq![
                            0xefu8,
                            0xbfu8,
                            0xbdu8,
                        ]);
                    }
                } else {
                    buf.push((*ch) as u8);
                }
            },
        }
    }
}

/// Writes list items, each wrapped in `<li>`…`</li>`.
pub fn write_list_items<B: Buf>(list: &Vec<Inline>, buf: &mut B)
    ensures
        final(buf).contents() == old(buf).contents() + render_list_items(view_nodes(list@)),
    decreases list@,
{
    proof {
        crate::doc::lemma_view_nodes_index(list@);
    }
    let ghost gs = view_nodes(list@);
    let ghost start = buf.contents();
    proof {
        assert(gs.take(0) =~= Seq::<GInline>::empty());
        assert(start + Seq::<u8>::empty() =~= start);
    }
    let mut i: usize = 0;
    while i < list.len()
        invariant
            gs == view_nodes(list@),
            gs.len() == list@.len(),
            forall|j: int| 0 <= j < list@.len() ==> gs[j] == view_inline(list@[j]),
            0 <= i <= list@.len(),
            buf.contents() == start + render_list_items(gs.take(i as int)),
        decreases list@.len() - i,
    {
        proof {
            assert(decreases_to!(list@ => list@[i as int]));
        }
        buf.push_str("<li>");
        let e = &list[i];
        e.write_to_buf(buf);
        buf.push_str("</li>");
        proof {
            assert(gs.take(i + 1) =~= gs.take(i as int).push(gs[i as int]));
            lemma_render_list_items_push(gs.take(i as int), gs[i as int]);
            assert(start + render_list_items(gs.take(i as int)) + ("<li>").spec_bytes()
                + render_inline(gs[i as int]) + ("</li>").spec_bytes() =~= start
                + render_list_items(gs.take(i + 1)));
        }
        i = i + 1;
    }
    proof {
        assert(gs.take(list@.len() as int) =~= gs);
    }
}

/// Writes quote items, each between `<p>` and the literal `<p>` closer.
pub fn write_quote_items<B: Buf>(list: &Vec<Inline>, buf: &mut B)
    ensures
        final(buf).contents() == old(buf).contents() + render_quote_items(view_nodes(list@)),
    decreases list@,
{
    proof {
        crate::doc::lemma_view_nodes_index(list@);
    }
    let ghost gs = view_nodes(list@);
    let ghost start = buf.contents();
    proof {
        assert(gs.take(0) =~= Seq::<GInline>::empty());
        assert(start + Seq::<u8>::empty() =~= start);
    }
    let mut i: usize = 0;
    while i < list.len()
        invariant
            gs == view_nodes(list@),
            gs.len() == list@.len(),
            forall|j: int| 0 <= j < list@.len() ==> gs[j] == view_inline(list@[j]),
            0 <= i <= list@.len(),
            buf.contents() == start + render_quote_items(gs.take(i as int)),
        decreases list@.len() - i,
    {
        proof {
            assert(decreases_to!(list@ => list@[i as int]));
        }
        buf.push_str("<p>");
        let e = &list[i];
        e.write_to_buf(buf);
        buf.push_str("<p>");
        proof {
            assert(gs.take(i + 1) =~= gs.take(i as int).push(gs[i as int]));
            lemma_render_quote_items_push(gs.take(i as int), gs[i as int]);
            assert(start + render_quote_items(gs.take(i as int)) + ("<p>").spec_bytes()
                + render_inline(gs[i as int]) + ("<p>").spec_bytes() =~= start + render_quote_items(
                gs.take(i + 1),
            ));
        }
        i = i + 1;
    }
    proof {
        assert(gs.take(list@.len() as int) =~= gs);
    }
}

impl Block {
    /// Emits this block's HTML, recursing into its inline content.
    pub fn write_to_buf<B: Buf>(&self, buf: &mut B)
        ensures
            final(buf).contents() == old(buf).contents() + render_block(self@),
    {
        let ghost start = buf.contents();
        match self {
            Block::PlainParagraph { text } => {
                buf.push_str("<p>");
                text.write_to_buf(buf);
                buf.push_str("</p>");
                proof {
                    assert(start + ("<p>").spec_bytes() + render_inline(view_inline(*text)) + (
                    "</p>").spec_bytes() =~= start + (("<p>").spec_bytes() + render_inline(
                        view_inline(*text),
                    ) + ("</p>").spec_bytes()));
                }
            },
            Block::Heading { rank, text } => {
                buf.push_str("<h");
                push_decimal(buf, *rank);
                buf.push_str(">");
                text.write_to_buf(buf);
                buf.push_str("</h");
                push_decimal(buf, *rank);
                buf.push_str(">");
                proof {
                    assert(start + ("<h").spec_bytes() + spec_decimal(*rank as nat) + (
                    ">").spec_bytes() + render_inline(view_inline(*text)) + ("</h").spec_bytes()
                        + spec_decimal(*rank as nat) + (">").spec_bytes() =~= start + ((
                    "<h").spec_bytes() + spec_decimal(*rank as nat) + (">").spec_bytes()
                        + render_inline(view_inline(*text)) + ("</h").spec_bytes() + spec_decimal(
                        *rank as nat,
                    ) + (">").spec_bytes()));
                }
            },
            Block::OrderedList { list } => {
                buf.push_str("<ol>");
                write_list_items(list, buf);
                buf.push_str("</ol>");
                proof {
                    assert(start + ("<ol>").spec_bytes() + render_list_items(view_nodes(list@)) + (
                    "</ol>").spec_bytes() =~= start + (("<ol>").spec_bytes() + render_list_items(
                        view_nodes(list@),
                    ) + ("</ol>").spec_bytes()));
                }
            },
            Block::UnorderedList { list } => {
                buf.push_str("<ul>");
                write_list_items(list, buf);
                buf.push_str("</ul>");
                proof {
                    assert(start + ("<ul>").spec_bytes() + render_list_items(view_nodes(list@)) + (
                    "</ul>").spec_bytes() =~= start + (("<ul>").spec_bytes() + render_list_items(
                        view_nodes(list@),
                    ) + ("</ul>").spec_bytes()));
                }
            },
            Block::Quote { list } => {
                buf.push_str("<blockquote>");
                write_quote_items(list, buf);
                buf.push_str("</blockquote>");
                proof {
                    assert(start + ("<blockquote>").spec_bytes() + render_quote_items(
                        view_nodes(list@),
                    ) + ("</blockquote>").spec_bytes() =~= start + (("<blockquote>").spec_bytes()
                        + render_quote_items(view_nodes(list@)) + ("</blockquote>").spec_bytes()));
                }
            },
            Block::CodeBlock { language, text } => {
                buf.push_str("<pre class=\"lang");
                if language.len() > 0 {
                    buf.push_str("-");
                    buf.push_vec(language);
                }
                buf.push_str("\">");
                buf.push_vec(text);
                buf.push_str("</pre>");
                proof {
                    if language@.len() > 0 {
                        assert(start + ("<pre class=\"lang").spec_bytes() + ("-").spec_bytes()
                            + language@ + ("\">").spec_bytes() + text@ + ("</pre>").spec_bytes()
                            =~= start + (("<pre class=\"lang").spec_bytes() + (("-").spec_bytes()
                            + language@) + ("\">").spec_bytes() + text@ + ("</pre>").spec_bytes()));
                    } else {
                        assert(start + ("<pre class=\"lang").spec_bytes() + ("\">").spec_bytes()
                            + text@ + ("</pre>").spec_bytes() =~= start + ((
                        "<pre class=\"lang").spec_bytes() + Seq::<u8>::empty() + (
                        "\">").spec_bytes() + text@ + ("</pre>").spec_bytes()));
                    }
                }
            },
            Block::MathDisplay { formula } => {
                buf.push_str("<pre class=\"lang-math-display\">");
                buf.push_vec(formula);
                buf.push_str("</pre>");
                proof {
                    assert(start + ("<pre class=\"lang-math-display\">").spec_bytes() + formula@ + (
                    "</pre>").spec_bytes() =~= start + (("<pre class=\"lang-math-display\">").spec_bytes()
                        + formula@ + ("</pre>").spec_bytes()));
                }
            },
        }
    }
}

impl Passage {
    /// Emits the whole document: the concatenation of its blocks' output.
    pub fn write_to_buf<B: Buf>(&self, buf: &mut B)
        ensures
            final(buf).contents() == old(buf).contents() + render_passage(self@),
    {
        let ghost gs = view_blocks(self.paragraphs@);
        let ghost start = buf.contents();
        proof {
            assert(gs.take(0) =~= Seq::<GBlock>::empty());
            assert(start + Seq::<u8>::empty() =~= start);
        }
        let mut i: usize = 0;
        while i < self.paragraphs.len()
            invariant
                gs == view_blocks(self.paragraphs@),
                0 <= i <= self.paragraphs@.len(),
                buf.contents() == start + render_blocks(gs.take(i as int)),
            decreases self.paragraphs@.len() - i,
        {
            let e = &self.paragraphs[i];
            e.write_to_buf(buf);
            proof {
                assert(gs.take(i + 1) =~= gs.take(i as int).push(gs[i as int]));
                lemma_render_blocks_push(gs.take(i as int), gs[i as int]);
                assert(start + render_blocks(gs.take(i as int)) + render_block(gs[i as int]) =~=
                start + render_blocks(gs.take(i + 1)));
            }
            i = i + 1;
        }
        proof {
            assert(gs.take(self.paragraphs@.len() as int) =~= gs);
        }
    }
}

} // verus!
