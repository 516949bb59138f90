//! An arena-backed parser over an index pool: nodes own their children by
//! index, the tree is grown in place, and rendering walks the indices.  It
//! covers headings, bold, italic and literal characters only.
//!
//! The rendering side and the single-character step carry exact contracts;
//! the emphasis, heading and paragraph builders are specified by pool
//! well-formedness, frame and cursor progress alone.

use vstd::prelude::*;
use vstd::string::StrSliceExecFns;
use vstd::string::StringExecFns;

verus! {

/// Relies on std's String::push: appends exactly the one character given.
#[verifier::external_body]
fn string_push_char(s: &mut String, ch: char)
    ensures
        final(s)@ == old(s)@.push(ch),
{
    s.push(ch);
}

#[derive(Debug)]
pub enum NodeType {
    NONE,
    PASSAGE,
    PARAGRAPH,
    HEADING,
    CHAR,
    BOLD,
    ITALIC,
}

#[derive(Debug)]
pub struct Node {
    pub node_type: NodeType,
    pub depth: i32,
    pub parent_id: usize,
    pub children: Vec<usize>,
    /// For a character node, the code point; for a heading, its level.
    pub data: i32,
}

impl Node {
    pub fn new() -> (r: Node)
        ensures
            r.node_type is NONE,
            r.depth == 0,
            r.parent_id == 0,
            r.children@.len() == 0,
            r.data == 0,
    {
        Node { node_type: NodeType::NONE, depth: 0, parent_id: 0, children: Vec::new(), data: 0 }
    }

    /// Appends a child index.
    pub fn push(&mut self, n: usize)
        ensures
            final(self).children@ == old(self).children@.push(n),
            final(self).node_type == old(self).node_type,
            final(self).depth == old(self).depth,
            final(self).parent_id == old(self).parent_id,
            final(self).data == old(self).data,
    {
        self.children.push(n);
    }
}

/// The arena all nodes live in; a node names others by index into it.
#[derive(Debug)]
pub struct NodePool {
    nodes: Vec<Node>,
}

impl View for NodePool {
    type V = Seq<Node>;

    closed spec fn view(&self) -> Seq<Node> {
        self.nodes@
    }
}

impl NodePool {
    pub fn new() -> (r: NodePool)
        ensures
            r@.len() == 0,
    {
        NodePool { nodes: Vec::new() }
    }

    pub fn get(&self, n: usize) -> (r: &Node)
        requires
            n < self@.len(),
        ensures
            *r == self@[n as int],
    {
        &self.nodes[n]
    }

    pub fn get_mut(&mut self, n: usize) -> (r: &mut Node)
        requires
            n < old(self)@.len(),
        ensures
            *r == old(self)@[n as int],
            final(self)@ == old(self)@.update(n as int, *final(r)),
    {
        &mut self.nodes[n]
    }

    /// Appends a node and returns its index.
    pub fn push(&mut self, n: Node) -> (r: usize)
        ensures
            final(self)@ == old(self)@.push(n),
            r == old(self)@.len(),
    {
        self.nodes.push(n);
        self.nodes.len() - 1
    }

    /// Creates a fresh blank node and returns its index.
    pub fn new_node(&mut self) -> (r: usize)
        ensures
            final(self)@.len() == old(self)@.len() + 1,
            final(self)@ == old(self)@.push(final(self)@[r as int]),
            r == old(self)@.len(),
            final(self)@[r as int].node_type is NONE,
            final(self)@[r as int].children@.len() == 0,
            final(self)@[r as int].depth == 0,
            final(self)@[r as int].parent_id == 0,
            final(self)@[r as int].data == 0,
    {
        self.nodes.push(Node::new());
        self.nodes.len() - 1
    }
}

/// Decimal digits of `n` as characters, most significant first; empty for a
/// negative number, which no well-formed tree holds.
pub open spec fn spec_decimal_chars(n: int) -> Seq<char>
    decreases n,
{
    if 0 <= n < 10 {
        seq![(((0x30 + n) as u8) as char)]
    } else if n >= 10 {
        spec_decimal_chars(n / 10) + seq![(((0x30 + (n % 10)) as u8) as char)]
    } else {
        Seq::empty()
    }
}

/// One node of the pool is well formed: its children point strictly past it
/// and stay inside the pool, it has a real kind, and its payload fits what
/// the kind stores there.
pub open spec fn node_wf(pool: Seq<Node>, i: int) -> bool {
    &&& forall|k: int|
        0 <= k < pool[i].children@.len() ==> i < #[trigger] pool[i].children@[k] < pool.len()
    &&& !(pool[i].node_type is NONE)
    &&& (pool[i].node_type is HEADING ==> pool[i].data >= 1)
    &&& (pool[i].node_type is CHAR ==> pool[i].data >= 0)
}

pub open spec fn pool_wf(pool: Seq<Node>) -> bool {
    forall|i: int| 0 <= i < pool.len() ==> #[trigger] node_wf(pool, i)
}

/// The text a node renders: a pure post-order walk over the pool.  A child
/// index that does not point past its parent renders nothing; a well-formed
/// pool has no such index.
pub open spec fn spec_render(pool: Seq<Node>, i: int) -> Seq<char>
    decreases pool.len() - i, 1int, 0int,
{
    if !(0 <= i < pool.len()) {
        Seq::empty()
    } else {
        let n = pool[i];
        match n.node_type {
            NodeType::NONE => Seq::empty(),
            NodeType::PASSAGE => spec_render_children(pool, n.children@, i),
            NodeType::PARAGRAPH => ("<p>")@ + spec_render_children(pool, n.children@, i) + (
            "</p>")@,
            NodeType::HEADING => ("<h")@ + spec_decimal_chars(n.data as int) + (">")@
                + spec_render_children(pool, n.children@, i) + ("</h")@ + spec_decimal_chars(
                n.data as int,
            ) + (">")@,
            NodeType::CHAR => seq![((n.data % 256) as u8) as char],
            NodeType::BOLD => ("<b>")@ + spec_render_children(pool, n.children@, i) + ("</b>")@,
            NodeType::ITALIC => ("<em>")@ + spec_render_children(pool, n.children@, i) + (
            "</em>")@,
        }
    }
}

pub open spec fn spec_render_children(pool: Seq<Node>, cs: Seq<usize>, i: int) -> Seq<char>
    decreases pool.len() - i, 0int, cs.len(),
{
    if cs.len() == 0 {
        Seq::empty()
    } else {
        (if i < cs[0] < pool.len() {
            spec_render(pool, cs[0] as int)
        } else {
            Seq::empty()
        }) + spec_render_children(pool, cs.drop_first(), i)
    }
}

pub proof fn lemma_render_children_push(pool: Seq<Node>, cs: Seq<usize>, x: usize, i: int)
    ensures
        spec_render_children(pool, cs.push(x), i) == spec_render_children(pool, cs, i) + (if i < x
            < pool.len() {
            spec_render(pool, x as int)
        } else {
            Seq::<char>::empty()
        }),
    decreases cs,
{
    let piece = if i < x < pool.len() {
        spec_render(pool, x as int)
    } else {
        Seq::<char>::empty()
    };
    assert(cs.push(x).len() == cs.len() + 1);
    if cs.len() == 0 {
        assert(cs.push(x)[0] == x);
        assert(cs.push(x).drop_first() =~= Seq::<usize>::empty());
        assert(spec_render_children(pool, Seq::<usize>::empty(), i) == Seq::<char>::empty());
        assert(cs =~= Seq::<usize>::empty());
        assert(piece + Seq::<char>::empty() =~= piece);
        assert(Seq::<char>::empty() + piece =~= piece);
    } else {
        assert(cs.push(x)[0] == cs[0]);
        assert(cs.push(x).drop_first() =~= cs.drop_first().push(x));
        lemma_render_children_push(pool, cs.drop_first(), x, i);
        let head = if i < cs[0] < pool.len() {
            spec_render(pool, cs[0] as int)
        } else {
            Seq::<char>::empty()
        };
        assert(spec_render_children(pool, cs.push(x), i) == head + (spec_render_children(
            pool,
            cs.drop_first(),
            i,
        ) + piece));
        assert(head + (spec_render_children(pool, cs.drop_first(), i) + piece) =~= (head
            + spec_render_children(pool, cs.drop_first(), i)) + piece);
    }
}

/// Relies on std's String::push, behind `string_push_char`, for digits.
fn push_decimal_string(buf: &mut String, n: i32)
    requires
        n >= 0,
    ensures
        final(buf)@ == old(buf)@ + spec_decimal_chars(n as int),
    decreases n,
{
    if n < 10 {
        string_push_char(buf, (('0' as u8) + (n as u8)) as char);
        assert(old(buf)@.push((((0x30 + n) as u8) as char)) =~= old(buf)@ + spec_decimal_chars(
            n as int,
        ));
    } else {
        push_decimal_string(buf, n / 10);
        string_push_char(buf, (('0' as u8) + ((n % 10) as u8)) as char);
        assert((old(buf)@ + spec_decimal_chars((n / 10) as int)).push(
            (((0x30 + (n % 10)) as u8) as char),
        ) =~= old(buf)@ + spec_decimal_chars(n as int));
    }
}

/// The arena parser: a cursor into a borrowed text and the pool the tree
/// grows in.
#[derive(Debug)]
pub struct Parser<'a> {
    text: &'a str,
    text_index: usize,

    node_current: usize,
    node_root: usize,
    node_pool: NodePool,
}

impl<'a> Parser<'a> {
    pub closed spec fn pool(&self) -> Seq<Node> {
        self.node_pool@
    }

    pub closed spec fn index(&self) -> int {
        self.text_index as int
    }

    pub closed spec fn input(&self) -> Seq<char> {
        self.text@
    }

    pub closed spec fn root(&self) -> int {
        self.node_root as int
    }

    pub closed spec fn cur(&self) -> int {
        self.node_current as int
    }

    /// The character under the cursor, or the end sentinel past the end.
    pub closed spec fn peek(&self) -> char {
        if self.index() < self.input().len() {
            self.input()[self.index()]
        } else {
            '\u{ffff}'
        }
    }

    pub open spec fn wf(&self) -> bool {
        &&& pool_wf(self.pool())
        &&& self.pool().len() >= 1
        &&& 0 <= self.cur() < self.pool().len()
        &&& 0 <= self.root() < self.pool().len()
        &&& 0 <= self.index() <= self.input().len()
    }

    pub fn new(s: &'a str) -> (r: Self)
        ensures
            r.wf(),
            r.input() == s@,
            r.index() == 0,
            r.root() == 0,
            r.cur() == 0,
            r.pool().len() == 1,
            r.pool()[0].node_type is PASSAGE,
            r.pool()[0].children@.len() == 0,
    {
        let mut parser = Parser {
            text: s,
            text_index: 0,
            node_current: 0,
            node_pool: NodePool::new(),
            node_root: 0,
        };
        let n = parser.node_pool.new_node();
        let node = parser.node_pool.get_mut(n);
        node.node_type = NodeType::PASSAGE;
        proof {
            assert forall|i: int| 0 <= i < parser.node_pool@.len() implies node_wf(
                parser.node_pool@,
                i,
            ) by {
                assert(i == 0);
            }
        }
        parser
    }

    /// The node the tree is growing under.
    pub fn current(&mut self) -> (r: &mut Node)
        requires
            old(self).wf(),
        ensures
            *r == old(self).pool()[old(self).cur()],
            final(self).pool() == old(self).pool().update(old(self).cur(), *final(r)),
            final(self).input() == old(self).input(),
            final(self).index() == old(self).index(),
            final(self).root() == old(self).root(),
            final(self).cur() == old(self).cur(),
    {
        let c = self.node_current;
        self.node_pool.get_mut(c)
    }

    /// The character under the cursor, without consuming it.
    pub fn checkout(&mut self) -> (r: char)
        ensures
            r == old(self).peek(),
            *final(self) == *old(self),
    {
        let i = self.text_index;
        let l = self.text.unicode_len();
        if i < l {
            self.text.get_char(i)
        } else {
            '\u{ffff}'
        }
    }

    /// Consumes one character into a CHAR node under the current node.
    /// Fails only on the end sentinel.
    pub fn char(&mut self) -> (r: bool)
        requires
            old(self).wf(),
        ensures
            final(self).wf(),
            final(self).input() == old(self).input(),
            final(self).root() == old(self).root(),
            final(self).cur() == old(self).cur(),
            old(self).pool().len() <= final(self).pool().len(),
            r == (old(self).peek() != '\u{ffff}'),
            r ==> final(self).index() == old(self).index() + 1,
            r ==> ({
                let idx = old(self).pool().len() as int;
                let parent = old(self).pool()[old(self).cur()];
                &&& final(self).pool().len() == idx + 1
                &&& final(self).pool()[idx].node_type is CHAR
                &&& final(self).pool()[idx].data == (old(self).peek() as u32) as i32
                &&& final(self).pool()[idx].parent_id == old(self).cur()
                &&& final(self).pool()[idx].children@.len() == 0
                &&& final(self).pool()[idx].depth == (if parent.depth < i32::MAX {
                    parent.depth + 1
                } else {
                    parent.depth as int
                })
                &&& final(self).pool()[old(self).cur()].children@ == parent.children@.push(
                    (old(self).pool().len() as usize),
                )
                &&& forall|j: int|
                    0 <= j < idx && j != old(self).cur() ==> #[trigger] final(self).pool()[j]
                        == old(self).pool()[j]
            }),
            !r ==> *final(self) == *old(self),
    {
        let ch = self.checkout();
        if ch != '\u{ffff}' {
            let l = self.text.unicode_len();
            proof {
                assert(self.text_index < l);
            }
            self.text_index += 1;
            let current = self.node_current;
            let depth = self.node_pool.get(current).depth;
            let node = Node {
                node_type: NodeType::CHAR,
                depth: if depth < i32::MAX {
                    depth + 1
                } else {
                    depth
                },
                parent_id: current,
                children: Vec::new(),
                data: (ch as u32) as i32,
            };
            let n = self.node_pool.push(node);
            let cnode = self.node_pool.get_mut(current);
            cnode.push(n);
            proof {
                let pool = self.node_pool@;
                assert forall|i: int| 0 <= i < pool.len() implies node_wf(pool, i) by {
                    if i < old(self).pool().len() && i != current {
                        assert(node_wf(old(self).pool(), i));
                        assert(pool[i] == old(self).pool()[i]);
                    } else if i == current {
                        assert(node_wf(old(self).pool(), i));
                        assert(pool[i].children@ == old(self).pool()[current as int].children@.push(
                            n,
                        ));
                    } else {
                        assert(i == n);
                    }
                }
            }
            return true;
        }
        false
    }

    /// Italic: `*` … `*`.  On a missed closing marker the characters read
    /// stay in the tree under the abandoned node.
    pub fn italic(&mut self) -> (r: bool)
        requires
            old(self).wf(),
        ensures
            final(self).wf(),
            final(self).input() == old(self).input(),
            final(self).root() == old(self).root(),
            old(self).pool().len() <= final(self).pool().len(),
            old(self).index() <= final(self).index(),
            r ==> final(self).index() > old(self).index(),
            old(self).peek() == '*' ==> final(self).index() > old(self).index(),
            r ==> final(self).cur() == old(self).cur(),
        decreases old(self).input().len() - old(self).index(), 1int,
    {
        if self.checkout() == '*' {
            let l = self.text.unicode_len();
            proof {
                assert(self.text_index < l);
            }
            self.text_index += 1;

            let current = self.node_current;
            let depth = self.node_pool.get(current).depth;
            let new_node = self.node_pool.push(
                Node {
                    node_type: NodeType::ITALIC,
                    depth: if depth < i32::MAX {
                        depth + 1
                    } else {
                        depth
                    },
                    parent_id: current,
                    children: Vec::new(),
                    data: 0,
                },
            );
            proof {
                let pool = self.node_pool@;
                assert forall|i: int| 0 <= i < pool.len() implies node_wf(pool, i) by {
                    if i < old(self).pool().len() {
                        assert(node_wf(old(self).pool(), i));
                        assert(pool[i] == old(self).pool()[i]);
                    }
                }
            }
            self.node_current = new_node;
            loop
                invariant
                    self.wf(),
                    self.input() == old(self).input(),
                    self.root() == old(self).root(),
                    old(self).pool().len() <= self.pool().len(),
                    current == old(self).cur(),
                    current < old(self).pool().len(),
                    current < new_node < self.pool().len(),
                    old(self).index() + 1 <= self.index(),
                decreases self.input().len() - self.index(),
            {
                if self.bold() {
                }
                let ch = self.checkout();
                if ch == '\n' {
                    break ;
                }
                if ch == '*' {
                    let l2 = self.text.unicode_len();
                    proof {
                        assert(self.text_index < l2);
                    }
                    self.text_index += 1;

                    self.node_current = current;
                    let ghost before = self.node_pool@;
                    let cnode = self.node_pool.get_mut(current);
                    cnode.push(new_node);
                    proof {
                        let pool = self.node_pool@;
                        assert(pool[current as int].children@ == before[current as int].children@.push(
                            new_node,
                        ));
                        assert forall|i: int| 0 <= i < pool.len() implies node_wf(pool, i) by {
                            assert(node_wf(before, i));
                            if i == current as int {
                                assert forall|k: int|
                                    0 <= k < pool[i].children@.len() implies i < #[trigger] pool[i].children@[k]
                                    < pool.len() by {
                                    if k < before[i].children@.len() {
                                        assert(pool[i].children@[k] == before[i].children@[k]);
                                    } else {
                                        assert(pool[i].children@[k] == new_node);
                                        assert(current < new_node < pool.len());
                                    }
                                }
                            } else {
                                assert(pool[i] == before[i]);
                            }
                        }
                    }
                    return true;
                }
                if !self.char() {
                    break ;
                }
            }
        }
        false
    }

    /// Bold: `**` … `**`, with one character of backtracking when the
    /// second opening `*` is missing.
    pub fn bold(&mut self) -> (r: bool)
        requires
            old(self).wf(),
        ensures
            final(self).wf(),
            final(self).input() == old(self).input(),
            final(self).root() == old(self).root(),
            old(self).pool().len() <= final(self).pool().len(),
            old(self).index() <= final(self).index(),
            r ==> final(self).index() > old(self).index(),
            r ==> final(self).cur() == old(self).cur(),
        decreases old(self).input().len() - old(self).index(), 0int,
    {
        if self.checkout() == '*' {
            let l = self.text.unicode_len();
            proof {
                assert(self.text_index < l);
            }
            self.text_index += 1;
            if self.checkout() == '*' {
                let l2 = self.text.unicode_len();
                proof {
                    assert(self.text_index < l2);
                }
                self.text_index += 1;

                let current = self.node_current;
                let depth = self.node_pool.get(current).depth;
                let new_node = self.node_pool.push(
                    Node {
                        node_type: NodeType::BOLD,
                        depth: if depth < i32::MAX {
                            depth + 1
                        } else {
                            depth
                        },
                        parent_id: current,
                        children: Vec::new(),
                        data: 0,
                    },
                );
                proof {
                    let pool = self.node_pool@;
                    assert forall|i: int| 0 <= i < pool.len() implies node_wf(pool, i) by {
                        if i < old(self).pool().len() {
                            assert(node_wf(old(self).pool(), i));
                            assert(pool[i] == old(self).pool()[i]);
                        }
                    }
                }
                self.node_current = new_node;
                loop
                    invariant
                        self.wf(),
                        self.input() == old(self).input(),
                        self.root() == old(self).root(),
                        old(self).pool().len() <= self.pool().len(),
                        current == old(self).cur(),
                        current < old(self).pool().len(),
                        current < new_node < self.pool().len(),
                        old(self).index() + 2 <= self.index(),
                    decreases self.input().len() - self.index(),
                {
                    let ch = self.checkout();
                    if ch == '\n' {
                        break ;
                    }
                    if ch == '*' {
                        let l3 = self.text.unicode_len();
                        proof {
                            assert(self.text_index < l3);
                        }
                        self.text_index += 1;
                        if self.checkout() == '*' {
                            let l4 = self.text.unicode_len();
                            proof {
                                assert(self.text_index < l4);
                            }
                            self.text_index += 1;

                            self.node_current = current;
                            let ghost before = self.node_pool@;
                            let cnode = self.node_pool.get_mut(current);
                            cnode.push(new_node);
                            proof {
                                let pool = self.node_pool@;
                                assert(pool[current as int].children@ == before[current as int].children@.push(
                                    new_node,
                                ));
                                assert forall|i: int| 0 <= i < pool.len() implies node_wf(pool, i) by {
                                    assert(node_wf(before, i));
                                    if i == current as int {
                                        assert forall|k: int|
                                            0 <= k < pool[i].children@.len() implies i < #[trigger] pool[i].children@[k]
                                            < pool.len() by {
                                            if k < before[i].children@.len() {
                                                assert(pool[i].children@[k] == before[i].children@[k]);
                                            } else {
                                                assert(pool[i].children@[k] == new_node);
                                                assert(current < new_node < pool.len());
                                            }
                                        }
                                    } else {
                                        assert(pool[i] == before[i]);
                                    }
                                }
                            }
                            return true;
                        } else {
                            self.text_index -= 1;
                        }
                    }
                    if self.italic() {
                    } else {
                        if !self.char() {
                            break ;
                        }
                    }
                }
            }
            self.text_index -= 1;
        }
        false
    }

    /// Consumes inline content up to a bare newline or the end of input.
    pub fn text_to_newline(&mut self)
        requires
            old(self).wf(),
        ensures
            final(self).wf(),
            final(self).input() == old(self).input(),
            final(self).root() == old(self).root(),
            old(self).pool().len() <= final(self).pool().len(),
            old(self).index() <= final(self).index(),
            final(self).peek() == ('\n') || final(self).peek() == '\u{ffff}',
    {
        loop
            invariant
                self.wf(),
                self.input() == old(self).input(),
                self.root() == old(self).root(),
                old(self).pool().len() <= self.pool().len(),
                old(self).index() <= self.index(),
            decreases self.input().len() - self.index(),
        {
            if self.bold() {
            } else if self.italic() {
            } else if self.checkout() == '\n' {
                return ;
            } else if self.char() {
            } else {
                return ;
            }
        }
    }

    /// One paragraph node: consumes the rest of the line.  The grammar
    /// calls it only while input is left.
    pub fn paragraph(&mut self, _from_begin: bool) -> (r: bool)
        requires
            old(self).wf(),
            old(self).index() < old(self).input().len(),
        ensures
            final(self).wf(),
            final(self).input() == old(self).input(),
            final(self).root() == old(self).root(),
            old(self).pool().len() <= final(self).pool().len(),
            final(self).index() > old(self).index(),
            r,
    {
        let l = self.text.unicode_len();
        proof {
            assert(self.text_index < l);
        }
        self.text_index += 1;

        let current = self.node_current;
        let depth = self.node_pool.get(current).depth;
        let new_node = self.node_pool.push(
            Node {
                node_type: NodeType::PARAGRAPH,
                depth: if depth < i32::MAX {
                    depth + 1
                } else {
                    depth
                },
                parent_id: current,
                children: Vec::new(),
                data: 0,
            },
        );
        proof {
            let pool = self.node_pool@;
            assert forall|i: int| 0 <= i < pool.len() implies node_wf(pool, i) by {
                if i < old(self).pool().len() {
                    assert(node_wf(old(self).pool(), i));
                    assert(pool[i] == old(self).pool()[i]);
                }
            }
        }
        self.node_current = new_node;
        self.text_to_newline();

        self.node_current = current;
        let ghost before = self.node_pool@;
        let cnode = self.node_pool.get_mut(current);
        cnode.push(new_node);
        proof {
            let pool = self.node_pool@;
            assert(pool[current as int].children@ == before[current as int].children@.push(
                new_node,
            ));
            assert forall|i: int| 0 <= i < pool.len() implies node_wf(pool, i) by {
                assert(node_wf(before, i));
                if i == current as int {
                    assert forall|k: int|
                        0 <= k < pool[i].children@.len() implies i < #[trigger] pool[i].children@[k]
                        < pool.len() by {
                        if k < before[i].children@.len() {
                            assert(pool[i].children@[k] == before[i].children@[k]);
                        } else {
                            assert(pool[i].children@[k] == new_node);
                            assert(current < new_node < pool.len());
                        }
                    }
                } else {
                    assert(pool[i] == before[i]);
                }
            }
        }
        true
    }

    /// Heading: a run of `#`, then the rest of the line; the node stores
    /// the run length.
    pub fn heading(&mut self) -> (r: bool)
        requires
            old(self).wf(),
        ensures
            final(self).wf(),
            final(self).input() == old(self).input(),
            final(self).root() == old(self).root(),
            old(self).pool().len() <= final(self).pool().len(),
            old(self).index() <= final(self).index(),
            r == (old(self).peek() == '#'),
            r ==> final(self).index() > old(self).index(),
            !r ==> *final(self) == *old(self),
    {
        let ch = self.checkout();
        if ch == '#' {
            let l = self.text.unicode_len();
            proof {
                assert(self.text_index < l);
            }
            self.text_index += 1;
            let mut level: i32 = 1;
            loop
                invariant
                    self.wf(),
                    self.input() == old(self).input(),
                    self.root() == old(self).root(),
                    self.cur() == old(self).cur(),
                    self.pool() == old(self).pool(),
                    old(self).index() < self.index(),
                    1 <= level,
                decreases self.input().len() - self.index(),
            {
                let ch2 = self.checkout();
                if ch2 == '#' {
                    let l2 = self.text.unicode_len();
                    proof {
                        assert(self.text_index < l2);
                    }
                    self.text_index += 1;
                    if level < i32::MAX {
                        level = level + 1;
                    }
                } else {
                    break ;
                }
            }
            let current = self.node_current;
            let depth = self.node_pool.get(current).depth;
            let new_node = self.node_pool.push(
                Node {
                    node_type: NodeType::HEADING,
                    depth: if depth < i32::MAX {
                        depth + 1
                    } else {
                        depth
                    },
                    parent_id: current,
                    children: Vec::new(),
                    data: level,
                },
            );
            proof {
                let pool = self.node_pool@;
                assert forall|i: int| 0 <= i < pool.len() implies node_wf(pool, i) by {
                    if i < old(self).pool().len() {
                        assert(node_wf(old(self).pool(), i));
                        assert(pool[i] == old(self).pool()[i]);
                    }
                }
            }
            self.node_current = new_node;
            self.text_to_newline();

            self.node_current = current;
            let ghost before = self.node_pool@;
            let cnode = self.node_pool.get_mut(current);
            cnode.push(new_node);
            proof {
                let pool = self.node_pool@;
                assert(pool[current as int].children@ == before[current as int].children@.push(
                    new_node,
                ));
                assert forall|i: int| 0 <= i < pool.len() implies node_wf(pool, i) by {
                    assert(node_wf(before, i));
                    if i == current as int {
                        assert forall|k: int|
                            0 <= k < pool[i].children@.len() implies i < #[trigger] pool[i].children@[k]
                            < pool.len() by {
                            if k < before[i].children@.len() {
                                assert(pool[i].children@[k] == before[i].children@[k]);
                            } else {
                                assert(pool[i].children@[k] == new_node);
                                assert(current < new_node < pool.len());
                            }
                        }
                    } else {
                        assert(pool[i] == before[i]);
                    }
                }
            }
            return true;
        }
        false
    }

    /// Passage: headings and paragraphs until the input is exhausted.
    pub fn passage(&mut self, _new_line_break: bool) -> (r: bool)
        requires
            old(self).wf(),
        ensures
            final(self).wf(),
            final(self).input() == old(self).input(),
            final(self).root() == old(self).root(),
            old(self).pool().len() <= final(self).pool().len(),
            old(self).index() <= final(self).index(),
            final(self).peek() == '\u{ffff}',
            r == (old(self).peek() != '\u{ffff}'),
    {
        let mut flag = false;
        loop
            invariant
                self.wf(),
                self.input() == old(self).input(),
                self.root() == old(self).root(),
                old(self).pool().len() <= self.pool().len(),
                old(self).index() <= self.index(),
                flag ==> old(self).peek() != '\u{ffff}',
                !flag ==> self.index() == old(self).index(),
            decreases self.input().len() - self.index(),
        {
            let ch = self.checkout();
            if ch == '\u{ffff}' {
                proof {
                    if !flag {
                        assert(self.peek() == old(self).peek());
                        assert(old(self).peek() == '\u{ffff}');
                    }
                }
                return flag;
            }
            proof {
                assert(self.index() < self.input().len());
            }
            if self.heading() {
                flag = true;
            } else {
                let b = self.paragraph(true);
                if b {
                    flag = true;
                }
            }
        }
        flag
    }

    /// Builds the whole tree from the borrowed text.
    pub fn build(&mut self)
        requires
            old(self).wf(),
        ensures
            final(self).wf(),
            final(self).input() == old(self).input(),
            final(self).root() == old(self).root(),
            final(self).peek() == '\u{ffff}',
    {
        self.passage(false);
    }

    /// Serializes the tree under the root into the buffer.
    pub fn output(&mut self, buf: &mut String)
        requires
            old(self).wf(),
        ensures
            *final(self) == *old(self),
            final(buf)@ == old(buf)@ + spec_render(old(self).pool(), old(self).root()),
    {
        let root = self.node_root;
        self.parse(buf, root);
    }

    /// Renders one node: the pure post-order walk over the pool.
    pub fn parse(&self, buf: &mut String, node_i: usize)
        requires
            self.wf(),
            node_i < self.pool().len(),
        ensures
            final(buf)@ == old(buf)@ + spec_render(self.pool(), node_i as int),
        decreases self.pool().len() - node_i, 1int,
    {
        let ghost start = buf@;
        let node = self.node_pool.get(node_i);
        match node.node_type {
            NodeType::NONE => {
                proof {
                    assert(start + Seq::<char>::empty() =~= start);
                }
            },
            NodeType::CHAR => {
                proof {
                    assert(node_wf(self.pool(), node_i as int));
                }
                string_push_char(buf, ((node.data % 256) as u8) as char);
                proof {
                    assert(start.push(((node.data % 256) as u8) as char) =~= start + seq![
                        ((node.data % 256) as u8) as char,
                    ]);
                }
            },
            NodeType::PASSAGE => {
                self.parse_children(buf, node_i);
            },
            NodeType::PARAGRAPH => {
                buf.append("<p>");
                self.parse_children(buf, node_i);
                buf.append("</p>");
                proof {
                    let cs = spec_render_children(
                        self.pool(),
                        self.pool()[node_i as int].children@,
                        node_i as int,
                    );
                    assert(start + ("<p>")@ + cs + ("</p>")@ =~= start + (("<p>")@ + cs + (
                    "</p>")@));
                }
            },
            NodeType::BOLD => {
                buf.append("<b>");
                self.parse_children(buf, node_i);
                buf.append("</b>");
                proof {
                    let cs = spec_render_children(
                        self.pool(),
                        self.pool()[node_i as int].children@,
                        node_i as int,
                    );
                    assert(start + ("<b>")@ + cs + ("</b>")@ =~= start + (("<b>")@ + cs + (
                    "</b>")@));
                }
            },
            NodeType::ITALIC => {
                buf.append("<em>");
                self.parse_children(buf, node_i);
                buf.append("</em>");
                proof {
                    let cs = spec_render_children(
                        self.pool(),
                        self.pool()[node_i as int].children@,
                        node_i as int,
                    );
                    assert(start + ("<em>")@ + cs + ("</em>")@ =~= start + (("<em>")@ + cs + (
                    "</em>")@));
                }
            },
            NodeType::HEADING => {
                proof {
                    assert(node_wf(self.pool(), node_i as int));
                }
                buf.append("<h");
                push_decimal_string(buf, node.data);
                buf.append(">");
                self.parse_children(buf, node_i);
                buf.append("</h");
                push_decimal_string(buf, node.data);
                buf.append(">");
                proof {
                    let cs = spec_render_children(
                        self.pool(),
                        self.pool()[node_i as int].children@,
                        node_i as int,
                    );
                    let d = spec_decimal_chars(node.data as int);
                    assert(start + ("<h")@ + d + (">")@ + cs + ("</h")@ + d + (">")@ =~= start + ((
                    "<h")@ + d + (">")@ + cs + ("</h")@ + d + (">")@));
                }
            },
        }
    }

    /// Renders a node's children in order.
    fn parse_children(&self, buf: &mut String, node_i: usize)
        requires
            self.wf(),
            node_i < self.pool().len(),
        ensures
            final(buf)@ == old(buf)@ + spec_render_children(
                self.pool(),
                self.pool()[node_i as int].children@,
                node_i as int,
            ),
        decreases self.pool().len() - node_i, 0int,
    {
        let node = self.node_pool.get(node_i);
        let ghost cs = node.children@;
        let ghost start = buf@;
        proof {
            assert(cs.take(0) =~= Seq::<usize>::empty());
            assert(start + Seq::<char>::empty() =~= start);
        }
        let mut k: usize = 0;
        while k < node.children.len()
            invariant
                self.wf(),
                node_i < self.pool().len(),
                *node == self.pool()[node_i as int],
                cs == node.children@,
                0 <= k <= cs.len(),
                buf@ == start + spec_render_children(self.pool(), cs.take(k as int), node_i as int),
            decreases cs.len() - k,
        {
            let c = node.children[k];
            proof {
                assert(node_wf(self.pool(), node_i as int));
                assert(node_i < cs[k as int] < self.pool().len());
            }
            self.parse(buf, c);
            proof {
                assert(cs.take(k + 1) =~= cs.take(k as int).push(cs[k as int]));
                lemma_render_children_push(self.pool(), cs.take(k as int), cs[k as int], node_i as int);
                assert(start + spec_render_children(self.pool(), cs.take(k as int), node_i as int)
                    + spec_render(self.pool(), cs[k as int] as int) =~= start
                    + spec_render_children(self.pool(), cs.take(k + 1), node_i as int));
            }
            k = k + 1;
        }
        proof {
            assert(cs.take(cs.len() as int) =~= cs);
        }
    }
}

} // verus!
