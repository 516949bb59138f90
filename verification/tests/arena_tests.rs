use mdhtml::arena::{Node, NodePool, NodeType, Parser};

#[test]
fn node_new_is_blank() {
    let n = Node::new();
    assert!(matches!(n.node_type, NodeType::NONE));
    assert_eq!(n.depth, 0);
    assert_eq!(n.parent_id, 0);
    assert_eq!(n.children.len(), 0);
    assert_eq!(n.data, 0);
}

#[test]
fn node_push_appends_child_index() {
    let mut n = Node::new();
    n.push(3);
    n.push(7);
    assert_eq!(n.children, vec![3usize, 7usize]);
}

#[test]
fn pool_push_and_get() {
    let mut pool = NodePool::new();
    let mut a = Node::new();
    a.data = 41;
    let ia = pool.push(a);
    let ib = pool.new_node();
    assert_eq!(ia, 0);
    assert_eq!(ib, 1);
    assert_eq!(pool.get(ia).data, 41);
    pool.get_mut(ib).data = 42;
    assert_eq!(pool.get(ib).data, 42);
}

fn arena_render(s: &str) -> String {
    let mut p = Parser::new(s);
    p.build();
    let mut out = String::new();
    p.output(&mut out);
    out
}

#[test]
fn arena_paragraph_drops_its_first_character() {
    assert_eq!(arena_render("abc"), "<p>bc</p>");
}

#[test]
fn arena_heading() {
    assert_eq!(arena_render("#ab"), "<h1>ab</h1>");
}

#[test]
fn arena_bold_and_italic_use_em() {
    assert_eq!(arena_render("x**b**y"), "<p><b>b</b>y</p>");
    assert_eq!(arena_render("x*i*y"), "<p><em>i</em>y</p>");
}

#[test]
fn arena_empty_input() {
    assert_eq!(arena_render(""), "");
}

#[test]
fn arena_build_consumes_to_the_end() {
    let mut p = Parser::new("#h\nabc");
    p.build();
    assert_eq!(p.checkout(), '\u{ffff}');
}

#[test]
fn arena_checkout_and_char() {
    let mut p = Parser::new("ab");
    assert_eq!(p.checkout(), 'a');
    assert!(p.char());
    assert_eq!(p.checkout(), 'b');
    assert!(p.char());
    assert_eq!(p.checkout(), '\u{ffff}');
    assert!(!p.char());
}

#[test]
fn arena_current_is_the_root_at_start() {
    let mut p = Parser::new("x");
    let c = p.current();
    assert!(matches!(c.node_type, NodeType::PASSAGE));
}

#[test]
fn arena_output_is_deterministic() {
    let mut p = Parser::new("#h\nrest **b**");
    p.build();
    let mut a = String::new();
    p.output(&mut a);
    let mut b = String::new();
    p.output(&mut b);
    assert_eq!(a, b);
}
