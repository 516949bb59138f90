//! The document tree: a closed, finite set of node kinds forming an ownership
//! tree.  Each exec node type has a ghost counterpart used by every contract,
//! and a derived length: the count of source bytes the node semantically
//! carries, used by the parser to reject empty optional spans.

use vstd::prelude::*;

verus! {

/// Ghost form of an inline node.
pub enum GInline {
    /// Generic grouping node.
    Text { nodes: Seq<GInline> },
    Bold { nodes: Seq<GInline> },
    Italic { nodes: Seq<GInline> },
    Deleted { nodes: Seq<GInline> },
    CodeInline { code: Seq<u8> },
    MathInline { formula: Seq<u8> },
    Image { alt: Seq<u8>, url: Seq<u8>, title: Seq<u8> },
    Url { text: Seq<u8>, url: Seq<u8>, title: Seq<u8> },
    /// One literal scalar as reported by `character`: a byte value, or the
    /// replacement sentinel that stands for a stored NUL.
    Character { ch: u32 },
}

/// Ghost form of a paragraph-level node.
pub enum GBlock {
    PlainParagraph { text: GInline },
    Heading { rank: u32, text: GInline },
    OrderedList { list: Seq<GInline> },
    UnorderedList { list: Seq<GInline> },
    Quote { list: Seq<GInline> },
    CodeBlock { language: Seq<u8>, text: Seq<u8> },
    MathDisplay { formula: Seq<u8> },
}

/// Ghost form of a whole document.
pub struct GPassage {
    pub paragraphs: Seq<GBlock>,
}

/// A span-level node inside a block.
pub enum Inline {
    /// Generic grouping node.
    Text { nodes: Vec<Inline> },
    Bold { nodes: Vec<Inline> },
    Italic { nodes: Vec<Inline> },
    Deleted { nodes: Vec<Inline> },
    CodeInline { code: Vec<u8> },
    MathInline { formula: Vec<u8> },
    Image { alt: Vec<u8>, url: Vec<u8>, title: Vec<u8> },
    Url { text: Vec<u8>, url: Vec<u8>, title: Vec<u8> },
    Character { ch: u32 },
}

/// A paragraph-level node.
pub enum Block {
    PlainParagraph { text: Inline },
    Heading { rank: u32, text: Inline },
    OrderedList { list: Vec<Inline> },
    UnorderedList { list: Vec<Inline> },
    Quote { list: Vec<Inline> },
    CodeBlock { language: Vec<u8>, text: Vec<u8> },
    MathDisplay { formula: Vec<u8> },
}

/// The document root: an ordered sequence of block nodes.
pub struct Passage {
    pub paragraphs: Vec<Block>,
}

pub open spec fn view_inline(n: Inline) -> GInline
    decreases n,
{
    match n {
        Inline::Text { nodes } => GInline::Text { nodes: view_nodes(nodes@) },
        Inline::Bold { nodes } => GInline::Bold { nodes: view_nodes(nodes@) },
        Inline::Italic { nodes } => GInline::Italic { nodes: view_nodes(nodes@) },
        Inline::Deleted { nodes } => GInline::Deleted { nodes: view_nodes(nodes@) },
        Inline::CodeInline { code } => GInline::CodeInline { code: code@ },
        Inline::MathInline { formula } => GInline::MathInline { formula: formula@ },
        Inline::Image { alt, url, title } => GInline::Image {
            alt: alt@,
            url: url@,
            title: title@,
        },
        Inline::Url { text, url, title } => GInline::Url {
            text: text@,
            url: url@,
            title: title@,
        },
        Inline::Character { ch } => GInline::Character { ch },
    }
}

pub open spec fn view_nodes(s: Seq<Inline>) -> Seq<GInline>
    decreases s,
{
    if s.len() == 0 {
        Seq::empty()
    } else {
        seq![view_inline(s[0])] + view_nodes(s.drop_first())
    }
}

pub open spec fn view_block(b: Block) -> GBlock {
    match b {
        Block::PlainParagraph { text } => GBlock::PlainParagraph { text: view_inline(text) },
        Block::Heading { rank, text } => GBlock::Heading { rank, text: view_inline(text) },
        Block::OrderedList { list } => GBlock::OrderedList { list: view_nodes(list@) },
        Block::UnorderedList { list } => GBlock::UnorderedList { list: view_nodes(list@) },
        Block::Quote { list } => GBlock::Quote { list: view_nodes(list@) },
        Block::CodeBlock { language, text } => GBlock::CodeBlock {
            language: language@,
            text: text@,
        },
        Block::MathDisplay { formula } => GBlock::MathDisplay { formula: formula@ },
    }
}

pub open spec fn view_blocks(s: Seq<Block>) -> Seq<GBlock> {
    Seq::new(s.len(), |i: int| view_block(s[i]))
}

impl View for Inline {
    type V = GInline;

    open spec fn view(&self) -> GInline {
        view_inline(*self)
    }
}

impl View for Block {
    type V = GBlock;

    open spec fn view(&self) -> GBlock {
        view_block(*self)
    }
}

impl View for Passage {
    type V = GPassage;

    open spec fn view(&self) -> GPassage {
        GPassage { paragraphs: view_blocks(self.paragraphs@) }
    }
}

pub broadcast proof fn lemma_view_nodes_index(s: Seq<Inline>)
    ensures
        (#[trigger] view_nodes(s)).len() == s.len(),
        forall|i: int| 0 <= i < s.len() ==> view_nodes(s)[i] == view_inline(s[i]),
    decreases s,
{
    if s.len() > 0 {
        lemma_view_nodes_index(s.drop_first());
        assert forall|i: int| 0 <= i < s.len() implies view_nodes(s)[i] == view_inline(s[i]) by {
            if i > 0 {
                assert(s.drop_first()[i - 1] == s[i]);
            }
        }
    }
}

pub proof fn lemma_view_nodes_push(s: Seq<Inline>, x: Inline)
    ensures
        view_nodes(s.push(x)) == view_nodes(s).push(view_inline(x)),
{
    lemma_view_nodes_index(s);
    lemma_view_nodes_index(s.push(x));
    assert(view_nodes(s.push(x)) =~= view_nodes(s).push(view_inline(x)));
}

/// Count of source bytes an inline node semantically carries.
pub open spec fn glen_inline(n: GInline) -> nat
    decreases n,
{
    match n {
        GInline::Text { nodes } => glen_nodes(nodes),
        GInline::Bold { nodes } => glen_nodes(nodes),
        GInline::Italic { nodes } => glen_nodes(nodes),
        GInline::Deleted { nodes } => glen_nodes(nodes),
        GInline::CodeInline { code } => code.len(),
        GInline::MathInline { formula } => formula.len(),
        GInline::Image { alt, url, title } => alt.len() + url.len() + title.len(),
        GInline::Url { text, url, title } => text.len() + url.len() + title.len(),
        GInline::Character { .. } => 1,
    }
}

pub open spec fn glen_nodes(s: Seq<GInline>) -> nat
    decreases s,
{
    if s.len() == 0 {
        0
    } else {
        glen_inline(s[0]) + glen_nodes(s.drop_first())
    }
}

pub open spec fn glen_block(b: GBlock) -> nat {
    match b {
        GBlock::PlainParagraph { text } => glen_inline(text),
        GBlock::Heading { rank, text } => glen_inline(text),
        GBlock::OrderedList { list } => glen_nodes(list),
        GBlock::UnorderedList { list } => glen_nodes(list),
        GBlock::Quote { list } => glen_nodes(list),
        GBlock::CodeBlock { language, text } => language.len() + text.len(),
        GBlock::MathDisplay { formula } => formula.len(),
    }
}

pub open spec fn glen_blocks(s: Seq<GBlock>) -> nat
    decreases s,
{
    if s.len() == 0 {
        0
    } else {
        glen_block(s[0]) + glen_blocks(s.drop_first())
    }
}

pub proof fn lemma_glen_nodes_push(s: Seq<GInline>, x: GInline)
    ensures
        glen_nodes(s.push(x)) == glen_nodes(s) + glen_inline(x),
    decreases s,
{
    assert(s.push(x).len() == s.len() + 1);
    if s.len() == 0 {
        assert(s.push(x)[0] == x);
        assert(s.push(x).drop_first() =~= Seq::<GInline>::empty());
        assert(glen_nodes(s.push(x)) == glen_inline(x) + glen_nodes(Seq::<GInline>::empty()));
        assert(glen_nodes(Seq::<GInline>::empty()) == 0);
        assert(glen_nodes(s) == 0);
    } else {
        assert(s.push(x)[0] == s[0]);
        assert(s.push(x).drop_first() =~= s.drop_first().push(x));
        lemma_glen_nodes_push(s.drop_first(), x);
        assert(glen_nodes(s.push(x)) == glen_inline(s[0]) + glen_nodes(s.drop_first().push(x)));
        assert(glen_nodes(s) == glen_inline(s[0]) + glen_nodes(s.drop_first()));
    }
}

pub proof fn lemma_glen_nodes_skip(s: Seq<GInline>, i: int)
    requires
        0 <= i < s.len(),
    ensures
        glen_nodes(s.skip(i)) == glen_inline(s[i]) + glen_nodes(s.skip(i + 1)),
{
    assert(s.skip(i).len() > 0);
    assert(s.skip(i)[0] == s[i]);
    assert(s.skip(i).drop_first() =~= s.skip(i + 1));
}

pub proof fn lemma_glen_blocks_skip(s: Seq<GBlock>, i: int)
    requires
        0 <= i < s.len(),
    ensures
        glen_blocks(s.skip(i)) == glen_block(s[i]) + glen_blocks(s.skip(i + 1)),
{
    assert(s.skip(i).len() > 0);
    assert(s.skip(i)[0] == s[i]);
    assert(s.skip(i).drop_first() =~= s.skip(i + 1));
}

pub proof fn lemma_glen_blocks_push(s: Seq<GBlock>, x: GBlock)
    ensures
        glen_blocks(s.push(x)) == glen_blocks(s) + glen_block(x),
    decreases s,
{
    assert(s.push(x).len() == s.len() + 1);
    if s.len() == 0 {
        assert(s.push(x)[0] == x);
        assert(s.push(x).drop_first() =~= Seq::<GBlock>::empty());
        assert(glen_blocks(s.push(x)) == glen_block(x) + glen_blocks(Seq::<GBlock>::empty()));
        assert(glen_blocks(Seq::<GBlock>::empty()) == 0);
        assert(glen_blocks(s) == 0);
    } else {
        assert(s.push(x)[0] == s[0]);
        assert(s.push(x).drop_first() =~= s.drop_first().push(x));
        lemma_glen_blocks_push(s.drop_first(), x);
        assert(glen_blocks(s.push(x)) == glen_block(s[0]) + glen_blocks(s.drop_first().push(x)));
        assert(glen_blocks(s) == glen_block(s[0]) + glen_blocks(s.drop_first()));
    }
}

impl Inline {
    /// The number of source bytes this node carries.
    pub fn len(&self) -> (r: usize)
        requires
            glen_inline(self@) <= usize::MAX,
        ensures
            r == glen_inline(self@),
        decreases *self,
    {
        match self {
            Inline::Text { nodes } => sum_len(nodes),
            Inline::Bold { nodes } => sum_len(nodes),
            Inline::Italic { nodes } => sum_len(nodes),
            Inline::Deleted { nodes } => sum_len(nodes),
            Inline::CodeInline { code } => code.len(),
            Inline::MathInline { formula } => formula.len(),
            Inline::Image { alt, url, title } => alt.len() + url.len() + title.len(),
            Inline::Url { text, url, title } => text.len() + url.len() + title.len(),
            Inline::Character { .. } => 1,
        }
    }
}

impl Block {
    /// The number of source bytes this block semantically carries.
    pub fn len(&self) -> (r: usize)
        requires
            glen_block(self@) <= usize::MAX,
        ensures
            r == glen_block(self@),
    {
        match self {
            Block::PlainParagraph { text } => text.len(),
            Block::Heading { rank: _, text } => text.len(),
            Block::OrderedList { list } => sum_len(list),
            Block::UnorderedList { list } => sum_len(list),
            Block::Quote { list } => sum_len(list),
            Block::CodeBlock { language, text } => language.len() + text.len(),
            Block::MathDisplay { formula } => formula.len(),
        }
    }
}

impl Passage {
    /// The number of source bytes the whole document carries.
    pub fn len(&self) -> (r: usize)
        requires
            glen_blocks(self@.paragraphs) <= usize::MAX,
        ensures
            r == glen_blocks(self@.paragraphs),
    {
        let ghost gs = view_blocks(self.paragraphs@);
        proof {
            assert(gs.skip(0) =~= gs);
        }
        let mut total: usize = 0;
        let mut i: usize = 0;
        while i < self.paragraphs.len()
            invariant
                gs == view_blocks(self.paragraphs@),
                0 <= i <= self.paragraphs@.len(),
                total + glen_blocks(gs.skip(i as int)) == glen_blocks(gs),
                glen_blocks(gs) <= usize::MAX,
            decreases self.paragraphs@.len() - i,
        {
            proof {
                lemma_glen_blocks_skip(gs, i as int);
            }
            let el = self.paragraphs[i].len();
            total = total + el;
            i = i + 1;
        }
        proof {
            assert(gs.skip(self.paragraphs@.len() as int) =~= Seq::<GBlock>::empty());
        }
        total
    }
}

/// Total length of a run of inline nodes.
pub fn sum_len(nodes: &Vec<Inline>) -> (r: usize)
    requires
        glen_nodes(view_nodes(nodes@)) <= usize::MAX,
    ensures
        r == glen_nodes(view_nodes(nodes@)),
    decreases nodes@,
{
    proof {
        lemma_view_nodes_index(nodes@);
    }
    let ghost gs = view_nodes(nodes@);
    proof {
        assert(gs.skip(0) =~= gs);
    }
    let mut total: usize = 0;
    let mut i: usize = 0;
    while i < nodes.len()
        invariant
            gs == view_nodes(nodes@),
            gs.len() == nodes@.len(),
            forall|j: int| 0 <= j < nodes@.len() ==> gs[j] == view_inline(nodes@[j]),
            0 <= i <= nodes@.len(),
            total + glen_nodes(gs.skip(i as int)) == glen_nodes(gs),
            glen_nodes(gs) <= usize::MAX,
        decreases nodes@.len() - i,
    {
        proof {
            lemma_glen_nodes_skip(gs, i as int);
            assert(decreases_to!(nodes@ => nodes@[i as int]));
        }
        let e = &nodes[i];
        let el = e.len();
        total = total + el;
        i = i + 1;
    }
    proof {
        assert(gs.skip(nodes@.len() as int) =~= Seq::<GInline>::empty());
    }
    total
}

} // verus!
