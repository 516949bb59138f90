//! The parser: recursive descent over the byte buffer, no backtracking
//! across committed alternatives.  The cursor is a plain integer threaded by
//! value, so a failed speculative alternative costs nothing.  Every function
//! is proved equal to its ghost counterpart in `grammar`.

use crate::cursor::{
    byte_is_ws, character, check_eat, count, get_until, get_until_pattern, get_word, is,
    InnerBuffer, UntilPattern,
};
use crate::doc::{
    glen_inline, glen_nodes, lemma_glen_nodes_push, lemma_view_nodes_push, view_nodes, Block,
    GBlock, GInline, Inline, Passage,
};
use crate::grammar::{
    adv, html_of, m_dollar, m_dollar2, m_dot_space, m_hash, m_img_open, m_lbracket, m_lparen,
    m_rbracket, m_rparen, m_space, m_star, m_star2, m_tick, m_tick3, m_tilde2, s_bold,
    s_code_block, s_code_inline, s_deleted, s_heading, s_image, s_inline, s_italic, s_link_tail,
    s_math_display, s_math_inline, s_olist_items, s_ordered_list, s_paragraph, s_passage,
    s_plain_paragraph, s_quote, s_quote_items, s_ulist_items, s_unordered_list, s_url,
    spec_item_number, spec_item_prefix, spec_quote_prefix, strip_quotes,
};
use crate::sink::Buf;
use vstd::prelude::*;

verus! {

/// Surrounding double quotes of a captured title are shed.
fn strip_title_quotes(v: Vec<u8>) -> (r: Vec<u8>)
    ensures
        r@ == strip_quotes(v@),
        r@.len() <= v@.len(),
{
    let n = v.len();
    if n >= 2 && v[0] == '"' as u8 && v[n - 1] == '"' as u8 {
        let mut out: Vec<u8> = Vec::new();
        let mut i: usize = 1;
        while i < n - 1
            invariant
                n == v@.len(),
                n >= 2,
                1 <= i <= n - 1,
                out@ == v@.subrange(1, i as int),
            decreases n - i,
        {
            out.push(v[i]);
            assert(out@ =~= v@.subrange(1, i + 1));
            i = i + 1;
        }
        out
    } else {
        v
    }
}

/// Inline code: a backtick, a single-line scan to the closing backtick, and
/// zero-length rejection of the captured span.
pub fn code_inline(text: &InnerBuffer, pos: usize) -> (r: Option<(Inline, usize)>)
    ensures
        ({
            let g = s_code_inline(text@, pos as int);
            match r {
                Some((n, p)) => {
                    &&& g is Some
                    &&& n@ == g.unwrap().0
                    &&& p == g.unwrap().1
                    &&& pos < p
                    &&& p <= text@.len()
                    &&& glen_inline(n@) <= p - pos
                },
                None => g is None,
            }
        }),
{
    let m: [u8; 1] = ['`' as u8];
    proof {
        assert(m@ =~= m_tick());
    }
    if is(text, pos, m.as_slice()) {
        let p0 = check_eat(text, pos, m.as_slice(), 1);
        let rr = get_until(text, p0, m.as_slice(), false);
        if rr.text.len() > 0 {
            return Some((Inline::CodeInline { code: rr.text }, rr.pos));
        }
    }
    None
}

/// Inline math: a dollar sign opens it; the scan ends on a backtick, a
/// quirk preserved on purpose as observable behavior.
pub fn math_inline(text: &InnerBuffer, pos: usize) -> (r: Option<(Inline, usize)>)
    ensures
        ({
            let g = s_math_inline(text@, pos as int);
            match r {
                Some((n, p)) => {
                    &&& g is Some
                    &&& n@ == g.unwrap().0
                    &&& p == g.unwrap().1
                    &&& pos < p
                    &&& p <= text@.len()
                    &&& glen_inline(n@) <= p - pos
                },
                None => g is None,
            }
        }),
{
    let m: [u8; 1] = ['$' as u8];
    let t: [u8; 1] = ['`' as u8];
    proof {
        assert(m@ =~= m_dollar());
        assert(t@ =~= m_tick());
    }
    if is(text, pos, m.as_slice()) {
        let p0 = check_eat(text, pos, m.as_slice(), 1);
        let rr = get_until(text, p0, t.as_slice(), false);
        if rr.text.len() > 0 {
            return Some((Inline::MathInline { formula: rr.text }, rr.pos));
        }
    }
    None
}

/// The bracketed tail shared by images and links: text to `]`, `(`, a URL
/// bounded by the first space or closing parenthesis, and an optional
/// space-led title to the closing parenthesis.
fn link_tail(text: &InnerBuffer, pos: usize) -> (r: Option<(InnerBuffer, InnerBuffer, InnerBuffer,
    usize)>)
    requires
        pos <= text@.len(),
    ensures
        ({
            let g = s_link_tail(text@, pos as int);
            match r {
                Some((a, u, t, e)) => {
                    &&& g is Some
                    &&& a@ == g.unwrap().0
                    &&& u@ == g.unwrap().1
                    &&& t@ == g.unwrap().2
                    &&& e == g.unwrap().3
                    &&& pos < e
                    &&& e <= text@.len()
                    &&& a@.len() + u@.len() + t@.len() <= e - pos
                },
                None => g is None,
            }
        }),
{
    let n = text.len();
    let rb: [u8; 1] = [']' as u8];
    let lp: [u8; 1] = ['(' as u8];
    let rp: [u8; 1] = [')' as u8];
    let sp: [u8; 1] = [' ' as u8];
    proof {
        assert(rb@ =~= m_rbracket());
        assert(lp@ =~= m_lparen());
        assert(rp@ =~= m_rparen());
        assert(sp@ =~= m_space());
    }
    let r1 = get_until(text, pos, rb.as_slice(), false);
    if !r1.reached_target {
        return None;
    }
    let p2 = r1.pos;
    let at_paren = is(text, p2, lp.as_slice());
    if !at_paren {
        return None;
    }
    let r2 = get_until_pattern(text, p2 + 1, &UntilPattern::SpaceOrParen, false);
    if !r2.reached_target {
        return None;
    }
    proof {
        assert(r2.pos >= p2 + 1 + r2.text@.len());
    }
    let p4 = r2.pos - 1;
    if is(text, p4, sp.as_slice()) {
        let r3 = get_until(text, p4 + 1, rp.as_slice(), false);
        if !r3.reached_target {
            return None;
        }
        let title = strip_title_quotes(r3.text);
        return Some((r1.text, r2.text, title, r3.pos));
    }
    if is(text, p4, rp.as_slice()) {
        return Some((r1.text, r2.text, Vec::new(), p4 + 1));
    }
    None
}

/// Image: `![` then the bracketed tail.  Any missing delimiter aborts the
/// whole construct; no partial node is emitted.
pub fn image(text: &InnerBuffer, pos: usize) -> (r: Option<(Inline, usize)>)
    ensures
        ({
            let g = s_image(text@, pos as int);
            match r {
                Some((n, p)) => {
                    &&& g is Some
                    &&& n@ == g.unwrap().0
                    &&& p == g.unwrap().1
                    &&& pos < p
                    &&& p <= text@.len()
                    &&& glen_inline(n@) <= p - pos
                },
                None => g is None,
            }
        }),
{
    let m: [u8; 2] = ['!' as u8, '[' as u8];
    proof {
        assert(m@ =~= m_img_open());
    }
    let opened = is(text, pos, m.as_slice());
    if !opened {
        return None;
    }
    let p0 = check_eat(text, pos, m.as_slice(), 1);
    match link_tail(text, p0) {
        Some((alt, url, title, e)) => Some((Inline::Image { alt, url, title }, e)),
        None => None,
    }
}

/// Link: `[` then the bracketed tail, producing link text instead of alt
/// text.
pub fn url(text: &InnerBuffer, pos: usize) -> (r: Option<(Inline, usize)>)
    ensures
        ({
            let g = s_url(text@, pos as int);
            match r {
                Some((n, p)) => {
                    &&& g is Some
                    &&& n@ == g.unwrap().0
                    &&& p == g.unwrap().1
                    &&& pos < p
                    &&& p <= text@.len()
                    &&& glen_inline(n@) <= p - pos
                },
                None => g is None,
            }
        }),
{
    let m: [u8; 1] = ['[' as u8];
    proof {
        assert(m@ =~= m_lbracket());
    }
    let opened = is(text, pos, m.as_slice());
    if !opened {
        return None;
    }
    let p0 = check_eat(text, pos, m.as_slice(), 1);
    match link_tail(text, p0) {
        Some((txt, u, title, e)) => Some((Inline::Url { text: txt, url: u, title }, e)),
        None => None,
    }
}

/// Bold: `**`, an inline run gated against bold, closed by `**`.  The span
/// is discarded unless the closing marker was reached and the content is
/// non-empty.
pub fn bold(text: &InnerBuffer, pos: usize, italic: bool, del: bool) -> (r: Option<(Inline, usize)>)
    ensures
        ({
            let g = s_bold(text@, pos as int, italic, del);
            match r {
                Some((n, p)) => {
                    &&& g is Some
                    &&& n@ == g.unwrap().0
                    &&& p == g.unwrap().1
                    &&& pos < p
                    &&& p <= text@.len()
                    &&& glen_inline(n@) <= p - pos
                },
                None => g is None,
            }
        }),
    decreases text@.len() - pos, 0int,
{
    let m: [u8; 2] = ['*' as u8, '*' as u8];
    proof {
        assert(m@ =~= m_star2());
    }
    if is(text, pos, m.as_slice()) {
        let p0 = check_eat(text, pos, m.as_slice(), 1);
        let (nodes, e, st) = inline(text, p0, false, m.as_slice(), false, italic, del);
        if st {
            let node = Inline::Bold { nodes };
            if node.len() > 0 {
                return Some((node, e));
            }
        }
        return None;
    }
    None
}

/// Italic: `*` … `*`, gated against italic inside its own span.  Only a
/// zero-length span is discarded: a run cut short by a newline or the end
/// of input keeps what it gathered.
pub fn italic(text: &InnerBuffer, pos: usize, bold: bool, del: bool) -> (r: Option<(Inline, usize)>)
    ensures
        ({
            let g = s_italic(text@, pos as int, bold, del);
            match r {
                Some((n, p)) => {
                    &&& g is Some
                    &&& n@ == g.unwrap().0
                    &&& p == g.unwrap().1
                    &&& pos < p
                    &&& p <= text@.len()
                    &&& glen_inline(n@) <= p - pos
                },
                None => g is None,
            }
        }),
    decreases text@.len() - pos, 0int,
{
    let m: [u8; 1] = ['*' as u8];
    proof {
        assert(m@ =~= m_star());
    }
    if is(text, pos, m.as_slice()) {
        let p0 = check_eat(text, pos, m.as_slice(), 1);
        let (nodes, e, _st) = inline(text, p0, false, m.as_slice(), bold, false, del);
        let node = Inline::Italic { nodes };
        if node.len() > 0 {
            return Some((node, e));
        }
        return None;
    }
    None
}

/// Deleted: `~~` … `~~`, gated against itself; only a zero-length span is
/// discarded.
pub fn deleted(text: &InnerBuffer, pos: usize, bold: bool, italic: bool) -> (r: Option<(Inline,
    usize)>)
    ensures
        ({
            let g = s_deleted(text@, pos as int, bold, italic);
            match r {
                Some((n, p)) => {
                    &&& g is Some
                    &&& n@ == g.unwrap().0
                    &&& p == g.unwrap().1
                    &&& pos < p
                    &&& p <= text@.len()
                    &&& glen_inline(n@) <= p - pos
                },
                None => g is None,
            }
        }),
    decreases text@.len() - pos, 0int,
{
    let m: [u8; 2] = ['~' as u8, '~' as u8];
    proof {
        assert(m@ =~= m_tilde2());
    }
    if is(text, pos, m.as_slice()) {
        let p0 = check_eat(text, pos, m.as_slice(), 1);
        let (nodes, e, _st) = inline(text, p0, false, m.as_slice(), bold, italic, false);
        let node = Inline::Deleted { nodes };
        if node.len() > 0 {
            return Some((node, e));
        }
        return None;
    }
    None
}

/// The inline loop: span constructs tried in order at each position, ending
/// on the `stop_at` literal, a bare newline in single-line mode, or the end
/// of the input.  The third result reports whether `stop_at` closed the run.
#[verifier::rlimit(100)]
#[verifier::spinoff_prover]
pub fn inline(
    text: &InnerBuffer,
    pos: usize,
    multi_lines: bool,
    stop_at: &[u8],
    enable_bold: bool,
    enable_italic: bool,
    enable_deleted: bool,
) -> (r: (Vec<Inline>, usize, bool))
    ensures
        ({
            let g = s_inline(
                text@,
                pos as int,
                multi_lines,
                stop_at@,
                enable_bold,
                enable_italic,
                enable_deleted,
            );
            &&& view_nodes(r.0@) == g.0
            &&& r.1 == g.1
            &&& r.2 == g.2
            &&& pos <= r.1
            &&& pos <= text@.len() ==> r.1 <= text@.len()
            &&& pos < text@.len() ==> pos < r.1
            &&& glen_nodes(g.0) <= r.1 - pos
        }),
    decreases text@.len() - pos, 1int,
{
    let n = text.len();
    let mut nodes: Vec<Inline> = Vec::new();
    let mut p: usize = pos;
    let ghost g = s_inline(
        text@,
        pos as int,
        multi_lines,
        stop_at@,
        enable_bold,
        enable_italic,
        enable_deleted,
    );
    proof {
        assert(view_nodes(nodes@) =~= Seq::<GInline>::empty());
        assert(view_nodes(nodes@) + g.0 =~= g.0);
    }
    loop
        invariant
            n == text@.len(),
            pos <= p,
            pos <= n ==> p <= n,
            glen_nodes(view_nodes(nodes@)) <= p - pos,
            g == s_inline(
                text@,
                pos as int,
                multi_lines,
                stop_at@,
                enable_bold,
                enable_italic,
                enable_deleted,
            ),
            ({
                let rest = s_inline(
                    text@,
                    p as int,
                    multi_lines,
                    stop_at@,
                    enable_bold,
                    enable_italic,
                    enable_deleted,
                );
                &&& g.0 == view_nodes(nodes@) + rest.0
                &&& g.1 == rest.1
                &&& g.2 == rest.2
            }),
        decreases n + 1 - p,
    {
        if p >= n {
            proof {
                let rest = s_inline(
                    text@,
                    p as int,
                    multi_lines,
                    stop_at@,
                    enable_bold,
                    enable_italic,
                    enable_deleted,
                );
                assert(rest.0 =~= Seq::<GInline>::empty());
                assert(view_nodes(nodes@) + rest.0 =~= view_nodes(nodes@));
            }
            return (nodes, p, false);
        }
        let stopped = is(text, p, stop_at);
        if stopped {
            let q = p + stop_at.len();
            proof {
                assert(view_nodes(nodes@) + Seq::<GInline>::empty() =~= view_nodes(nodes@));
            }
            return (nodes, q, true);
        }
        if enable_bold {
            match bold(text, p, enable_italic, enable_deleted) {
                Some((b, np)) => {
                    proof {
                        let gb = s_bold(text@, p as int, enable_italic, enable_deleted).unwrap();
                        assert(adv(p as int, gb.1, text@.len() as int) == gb.1);
                        let rest = s_inline(
                            text@,
                            p as int,
                            multi_lines,
                            stop_at@,
                            enable_bold,
                            enable_italic,
                            enable_deleted,
                        );
                        let rest2 = s_inline(
                            text@,
                            gb.1,
                            multi_lines,
                            stop_at@,
                            enable_bold,
                            enable_italic,
                            enable_deleted,
                        );
                        assert(rest.0 == seq![gb.0] + rest2.0 && rest.1 == rest2.1 && rest.2
                            == rest2.2);
                        lemma_view_nodes_push(nodes@, b);
                        lemma_glen_nodes_push(view_nodes(nodes@), b@);
                        assert(view_nodes(nodes@) + (seq![b@] + rest2.0) =~= view_nodes(
                            nodes@,
                        ).push(b@) + rest2.0);
                    }
                    nodes.push(b);
                    p = np;
                    continue ;
                },
                None => {},
            }
        }
        if enable_italic {
            match italic(text, p, enable_bold, enable_deleted) {
                Some((b, np)) => {
                    proof {
                        let gb = s_italic(text@, p as int, enable_bold, enable_deleted).unwrap();
                        assert(adv(p as int, gb.1, text@.len() as int) == gb.1);
                        let rest = s_inline(
                            text@,
                            p as int,
                            multi_lines,
                            stop_at@,
                            enable_bold,
                            enable_italic,
                            enable_deleted,
                        );
                        let rest2 = s_inline(
                            text@,
                            gb.1,
                            multi_lines,
                            stop_at@,
                            enable_bold,
                            enable_italic,
                            enable_deleted,
                        );
                        assert(rest.0 == seq![gb.0] + rest2.0 && rest.1 == rest2.1 && rest.2
                            == rest2.2);
                        lemma_view_nodes_push(nodes@, b);
                        lemma_glen_nodes_push(view_nodes(nodes@), b@);
                        assert(view_nodes(nodes@) + (seq![b@] + rest2.0) =~= view_nodes(
                            nodes@,
                        ).push(b@) + rest2.0);
                    }
                    nodes.push(b);
                    p = np;
                    continue ;
                },
                None => {},
            }
        }
        if enable_deleted {
            match deleted(text, p, enable_bold, enable_italic) {
                Some((b, np)) => {
                    proof {
                        let gb = s_deleted(text@, p as int, enable_bold, enable_italic).unwrap();
                        assert(adv(p as int, gb.1, text@.len() as int) == gb.1);
                        let rest = s_inline(
                            text@,
                            p as int,
                            multi_lines,
                            stop_at@,
                            enable_bold,
                            enable_italic,
                            enable_deleted,
                        );
                        let rest2 = s_inline(
                            text@,
                            gb.1,
                            multi_lines,
                            stop_at@,
                            enable_bold,
                            enable_italic,
                            enable_deleted,
                        );
                        assert(rest.0 == seq![gb.0] + rest2.0 && rest.1 == rest2.1 && rest.2
                            == rest2.2);
                        lemma_view_nodes_push(nodes@, b);
                        lemma_glen_nodes_push(view_nodes(nodes@), b@);
                        assert(view_nodes(nodes@) + (seq![b@] + rest2.0) =~= view_nodes(
                            nodes@,
                        ).push(b@) + rest2.0);
                    }
                    nodes.push(b);
                    p = np;
                    continue ;
                },
                None => {},
            }
        }
        match code_inline(text, p) {
            Some((b, np)) => {
                proof {
                    let gb = s_code_inline(text@, p as int).unwrap();
                    assert(adv(p as int, gb.1, text@.len() as int) == gb.1);
                    let rest = s_inline(
                        text@,
                        p as int,
                        multi_lines,
                        stop_at@,
                        enable_bold,
                        enable_italic,
                        enable_deleted,
                    );
                    let rest2 = s_inline(
                        text@,
                        gb.1,
                        multi_lines,
                        stop_at@,
                        enable_bold,
                        enable_italic,
                        enable_deleted,
                    );
                    assert(rest.0 == seq![gb.0] + rest2.0 && rest.1 == rest2.1 && rest.2
                        == rest2.2);
                    lemma_view_nodes_push(nodes@, b);
                    lemma_glen_nodes_push(view_nodes(nodes@), b@);
                    assert(view_nodes(nodes@) + (seq![b@] + rest2.0) =~= view_nodes(nodes@).push(
                        b@,
                    ) + rest2.0);
                }
                nodes.push(b);
                p = np;
                continue ;
            },
            None => {},
        }
        match math_inline(text, p) {
            Some((b, np)) => {
                proof {
                    let gb = s_math_inline(text@, p as int).unwrap();
                    assert(adv(p as int, gb.1, text@.len() as int) == gb.1);
                    let rest = s_inline(
                        text@,
                        p as int,
                        multi_lines,
                        stop_at@,
                        enable_bold,
                        enable_italic,
                        enable_deleted,
                    );
                    let rest2 = s_inline(
                        text@,
                        gb.1,
                        multi_lines,
                        stop_at@,
                        enable_bold,
                        enable_italic,
                        enable_deleted,
                    );
                    assert(rest.0 == seq![gb.0] + rest2.0 && rest.1 == rest2.1 && rest.2
                        == rest2.2);
                    lemma_view_nodes_push(nodes@, b);
                    lemma_glen_nodes_push(view_nodes(nodes@), b@);
                    assert(view_nodes(nodes@) + (seq![b@] + rest2.0) =~= view_nodes(nodes@).push(
                        b@,
                    ) + rest2.0);
                }
                nodes.push(b);
                p = np;
                continue ;
            },
            None => {},
        }
        match image(text, p) {
            Some((b, np)) => {
                proof {
                    let gb = s_image(text@, p as int).unwrap();
                    assert(adv(p as int, gb.1, text@.len() as int) == gb.1);
                    let rest = s_inline(
                        text@,
                        p as int,
                        multi_lines,
                        stop_at@,
                        enable_bold,
                        enable_italic,
                        enable_deleted,
                    );
                    let rest2 = s_inline(
                        text@,
                        gb.1,
                        multi_lines,
                        stop_at@,
                        enable_bold,
                        enable_italic,
                        enable_deleted,
                    );
                    assert(rest.0 == seq![gb.0] + rest2.0 && rest.1 == rest2.1 && rest.2
                        == rest2.2);
                    lemma_view_nodes_push(nodes@, b);
                    lemma_glen_nodes_push(view_nodes(nodes@), b@);
                    assert(view_nodes(nodes@) + (seq![b@] + rest2.0) =~= view_nodes(nodes@).push(
                        b@,
                    ) + rest2.0);
                }
                nodes.push(b);
                p = np;
                continue ;
            },
            None => {},
        }
        match url(text, p) {
            Some((b, np)) => {
                proof {
                    let gb = s_url(text@, p as int).unwrap();
                    assert(adv(p as int, gb.1, text@.len() as int) == gb.1);
                    let rest = s_inline(
                        text@,
                        p as int,
                        multi_lines,
                        stop_at@,
                        enable_bold,
                        enable_italic,
                        enable_deleted,
                    );
                    let rest2 = s_inline(
                        text@,
                        gb.1,
                        multi_lines,
                        stop_at@,
                        enable_bold,
                        enable_italic,
                        enable_deleted,
                    );
                    assert(rest.0 == seq![gb.0] + rest2.0 && rest.1 == rest2.1 && rest.2
                        == rest2.2);
                    lemma_view_nodes_push(nodes@, b);
                    lemma_glen_nodes_push(view_nodes(nodes@), b@);
                    assert(view_nodes(nodes@) + (seq![b@] + rest2.0) =~= view_nodes(nodes@).push(
                        b@,
                    ) + rest2.0);
                }
                nodes.push(b);
                p = np;
                continue ;
            },
            None => {},
        }
        let c = character(text, p);
        if !multi_lines && c == '\n' as u32 {
            proof {
                assert(text@[p as int] == ('\n' as u8));
                let rest = s_inline(
                    text@,
                    p as int,
                    multi_lines,
                    stop_at@,
                    enable_bold,
                    enable_italic,
                    enable_deleted,
                );
                assert(rest.0 =~= Seq::<GInline>::empty());
                assert(view_nodes(nodes@) + rest.0 =~= view_nodes(nodes@));
            }
            return (nodes, p + 1, false);
        }
        proof {
            if !multi_lines {
                assert(text@[p as int] != ('\n' as u8));
            }
            let b = Inline::Character { ch: c };
            let rest = s_inline(
                text@,
                p as int,
                multi_lines,
                stop_at@,
                enable_bold,
                enable_italic,
                enable_deleted,
            );
            let rest2 = s_inline(
                text@,
                p + 1,
                multi_lines,
                stop_at@,
                enable_bold,
                enable_italic,
                enable_deleted,
            );
            assert(rest.0 == seq![b@] + rest2.0 && rest.1 == rest2.1 && rest.2 == rest2.2);
            lemma_view_nodes_push(nodes@, b);
            lemma_glen_nodes_push(view_nodes(nodes@), b@);
            assert(view_nodes(nodes@) + (seq![b@] + rest2.0) =~= view_nodes(nodes@).push(b@)
                + rest2.0);
        }
        nodes.push(Inline::Character { ch: c });
        p = p + 1;
    }
}

/// Heading: a run of 1 to 6 `#`, then one line-bounded inline run.  A run
/// of more than six falls through to the paragraph fallback.
pub fn heading(text: &InnerBuffer, pos: usize) -> (r: Option<(Block, usize)>)
    ensures
        ({
            let g = s_heading(text@, pos as int);
            match r {
                Some((b, p)) => {
                    &&& g is Some
                    &&& b@ == g.unwrap().0
                    &&& p == g.unwrap().1
                    &&& pos < p
                    &&& pos <= text@.len() ==> p <= text@.len()
                },
                None => g is None,
            }
        }),
{
    let m: [u8; 1] = ['#' as u8];
    proof {
        assert(m@ =~= m_hash());
    }
    let rank = count(text, pos, m.as_slice());
    if rank < 1 {
        return None;
    }
    let p0 = check_eat(text, pos, m.as_slice(), rank);
    let em: Vec<u8> = Vec::new();
    let (nodes, e, _st) = inline(text, p0, false, em.as_slice(), true, true, true);
    if rank > 6 {
        return None;
    }
    Some((Block::Heading { rank: rank as u32, text: Inline::Text { nodes } }, e))
}

/// An ordered-list item prefix: one or more digits, then `". "`.
fn is_item_number(text: &InnerBuffer, pos: usize) -> (r: Option<usize>)
    ensures
        ({
            let g = spec_item_number(text@, pos as int);
            match r {
                Some(p) => g is Some && p == g.unwrap() && pos < p <= text@.len(),
                None => g is None,
            }
        }),
{
    let n = text.len();
    let mut d: usize = pos;
    while d < n && text[d] >= '0' as u8 && text[d] <= '9' as u8
        invariant
            n == text@.len(),
            pos <= d,
            d <= n || d == pos,
            crate::grammar::spec_digits_end(text@, pos as int) == crate::grammar::spec_digits_end(
                text@,
                d as int,
            ),
        decreases n - d,
    {
        d = d + 1;
    }
    let m: [u8; 2] = ['.' as u8, ' ' as u8];
    proof {
        assert(m@ =~= m_dot_space());
        assert(crate::grammar::spec_digits_end(text@, d as int) == d);
    }
    if d > pos {
        if is(text, d, m.as_slice()) {
            return Some(check_eat(text, d, m.as_slice(), 1));
        }
    }
    None
}

/// An unordered-list item prefix: one of `-` `=` `*`, then a space.
fn is_item_prefix(text: &InnerBuffer, pos: usize) -> (r: Option<usize>)
    ensures
        ({
            let g = spec_item_prefix(text@, pos as int);
            match r {
                Some(p) => g is Some && p == g.unwrap() && pos < p <= text@.len(),
                None => g is None,
            }
        }),
{
    let n = text.len();
    if pos >= n {
        return None;
    }
    let ch = text[pos];
    if ch == '-' as u8 || ch == '=' as u8 || ch == '*' as u8 {
        let sp: [u8; 1] = [' ' as u8];
        proof {
            assert(sp@ =~= m_space());
        }
        if is(text, pos + 1, sp.as_slice()) {
            return Some(pos + 2);
        }
    }
    None
}

/// A quote item prefix: the `>` marker alone; the item begins right after
/// it.
fn is_quote_prefix(text: &InnerBuffer, pos: usize) -> (r: Option<usize>)
    ensures
        ({
            let g = spec_quote_prefix(text@, pos as int);
            match r {
                Some(p) => g is Some && p == g.unwrap() && pos < p <= text@.len(),
                None => g is None,
            }
        }),
{
    let n = text.len();
    if pos >= n {
        return None;
    }
    if text[pos] == '>' as u8 {
        return Some(pos + 1);
    }
    None
}

/// Ordered list: repeated numbered items; rejected only when no item
/// matched.
pub fn ordered_list(text: &InnerBuffer, pos: usize) -> (r: Option<(Block, usize)>)
    ensures
        ({
            let g = s_ordered_list(text@, pos as int);
            match r {
                Some((b, p)) => {
                    &&& g is Some
                    &&& b@ == g.unwrap().0
                    &&& p == g.unwrap().1
                    &&& pos < p <= text@.len()
                },
                None => g is None,
            }
        }),
{
    let n = text.len();
    let ghost g = s_olist_items(text@, pos as int);
    let mut list: Vec<Inline> = Vec::new();
    let mut p: usize = pos;
    proof {
        assert(view_nodes(list@) =~= Seq::<GInline>::empty());
        assert(view_nodes(list@) + g.0 =~= g.0);
    }
    loop
        invariant
            n == text@.len(),
            pos <= p,
            pos <= n ==> p <= n,
            glen_nodes(view_nodes(list@)) <= p - pos,
            list@.len() > 0 ==> p > pos,
            g == s_olist_items(text@, pos as int),
            ({
                let rest = s_olist_items(text@, p as int);
                &&& g.0 == view_nodes(list@) + rest.0
                &&& g.1 == rest.1
            }),
        decreases n + 1 - p,
    {
        match is_item_number(text, p) {
            None => {
                proof {
                    let rest = s_olist_items(text@, p as int);
                    assert(rest.0 =~= Seq::<GInline>::empty());
                    assert(view_nodes(list@) + rest.0 =~= view_nodes(list@));
                    assert(g.0 == view_nodes(list@));
                    assert(g.1 == p);
                    crate::doc::lemma_view_nodes_index(list@);
                }
                if list.len() > 0 {
                    return Some((Block::OrderedList { list }, p));
                }
                return None;
            },
            Some(p1) => {
                let em: Vec<u8> = Vec::new();
                let (nodes, p2, _st) = inline(text, p1, false, em.as_slice(), true, true, true);
                let item = Inline::Text { nodes };
                proof {
                    assert(adv(p as int, p1 as int, text@.len() as int) == p1);
                    assert(adv(p as int, p2 as int, text@.len() as int) == p2);
                    let rest = s_olist_items(text@, p as int);
                    let rest2 = s_olist_items(text@, p2 as int);
                    assert(rest.0 == seq![item@] + rest2.0 && rest.1 == rest2.1);
                    lemma_view_nodes_push(list@, item);
                    lemma_glen_nodes_push(view_nodes(list@), item@);
                    assert(view_nodes(list@) + (seq![item@] + rest2.0) =~= view_nodes(list@).push(
                        item@,
                    ) + rest2.0);
                }
                list.push(item);
                p = p2;
            },
        }
    }
}

/// Unordered list: as the ordered list, with the `-` `=` `*` markers.
pub fn unordered_list(text: &InnerBuffer, pos: usize) -> (r: Option<(Block, usize)>)
    ensures
        ({
            let g = s_unordered_list(text@, pos as int);
            match r {
                Some((b, p)) => {
                    &&& g is Some
                    &&& b@ == g.unwrap().0
                    &&& p == g.unwrap().1
                    &&& pos < p <= text@.len()
                },
                None => g is None,
            }
        }),
{
    let n = text.len();
    let ghost g = s_ulist_items(text@, pos as int);
    let mut list: Vec<Inline> = Vec::new();
    let mut p: usize = pos;
    proof {
        assert(view_nodes(list@) =~= Seq::<GInline>::empty());
        assert(view_nodes(list@) + g.0 =~= g.0);
    }
    loop
        invariant
            n == text@.len(),
            pos <= p,
            pos <= n ==> p <= n,
            glen_nodes(view_nodes(list@)) <= p - pos,
            list@.len() > 0 ==> p > pos,
            g == s_ulist_items(text@, pos as int),
            ({
                let rest = s_ulist_items(text@, p as int);
                &&& g.0 == view_nodes(list@) + rest.0
                &&& g.1 == rest.1
            }),
        decreases n + 1 - p,
    {
        match is_item_prefix(text, p) {
            None => {
                proof {
                    let rest = s_ulist_items(text@, p as int);
                    assert(rest.0 =~= Seq::<GInline>::empty());
                    assert(view_nodes(list@) + rest.0 =~= view_nodes(list@));
                    assert(g.0 == view_nodes(list@));
                    assert(g.1 == p);
                    crate::doc::lemma_view_nodes_index(list@);
                }
                if list.len() > 0 {
                    return Some((Block::UnorderedList { list }, p));
                }
                return None;
            },
            Some(p1) => {
                let em: Vec<u8> = Vec::new();
                let (nodes, p2, _st) = inline(text, p1, false, em.as_slice(), true, true, true);
                let item = Inline::Text { nodes };
                proof {
                    assert(adv(p as int, p1 as int, text@.len() as int) == p1);
                    assert(adv(p as int, p2 as int, text@.len() as int) == p2);
                    let rest = s_ulist_items(text@, p as int);
                    let rest2 = s_ulist_items(text@, p2 as int);
                    assert(rest.0 == seq![item@] + rest2.0 && rest.1 == rest2.1);
                    lemma_view_nodes_push(list@, item);
                    lemma_glen_nodes_push(view_nodes(list@), item@);
                    assert(view_nodes(list@) + (seq![item@] + rest2.0) =~= view_nodes(list@).push(
                        item@,
                    ) + rest2.0);
                }
                list.push(item);
                p = p2;
            },
        }
    }
}

/// Quote: repeated `>`-led items; rejected only when no item matched.
pub fn quote(text: &InnerBuffer, pos: usize) -> (r: Option<(Block, usize)>)
    ensures
        ({
            let g = s_quote(text@, pos as int);
            match r {
                Some((b, p)) => {
                    &&& g is Some
                    &&& b@ == g.unwrap().0
                    &&& p == g.unwrap().1
                    &&& pos < p <= text@.len()
                },
                None => g is None,
            }
        }),
{
    let n = text.len();
    let ghost g = s_quote_items(text@, pos as int);
    let mut list: Vec<Inline> = Vec::new();
    let mut p: usize = pos;
    proof {
        assert(view_nodes(list@) =~= Seq::<GInline>::empty());
        assert(view_nodes(list@) + g.0 =~= g.0);
    }
    loop
        invariant
            n == text@.len(),
            pos <= p,
            pos <= n ==> p <= n,
            glen_nodes(view_nodes(list@)) <= p - pos,
            list@.len() > 0 ==> p > pos,
            g == s_quote_items(text@, pos as int),
            ({
                let rest = s_quote_items(text@, p as int);
                &&& g.0 == view_nodes(list@) + rest.0
                &&& g.1 == rest.1
            }),
        decreases n + 1 - p,
    {
        match is_quote_prefix(text, p) {
            None => {
                proof {
                    let rest = s_quote_items(text@, p as int);
                    assert(rest.0 =~= Seq::<GInline>::empty());
                    assert(view_nodes(list@) + rest.0 =~= view_nodes(list@));
                    assert(g.0 == view_nodes(list@));
                    assert(g.1 == p);
                    crate::doc::lemma_view_nodes_index(list@);
                }
                if list.len() > 0 {
                    return Some((Block::Quote { list }, p));
                }
                return None;
            },
            Some(p1) => {
                let em: Vec<u8> = Vec::new();
                let (nodes, p2, _st) = inline(text, p1, false, em.as_slice(), true, true, true);
                let item = Inline::Text { nodes };
                proof {
                    assert(adv(p as int, p1 as int, text@.len() as int) == p1);
                    assert(adv(p as int, p2 as int, text@.len() as int) == p2);
                    let rest = s_quote_items(text@, p as int);
                    let rest2 = s_quote_items(text@, p2 as int);
                    assert(rest.0 == seq![item@] + rest2.0 && rest.1 == rest2.1);
                    lemma_view_nodes_push(list@, item);
                    lemma_glen_nodes_push(view_nodes(list@), item@);
                    assert(view_nodes(list@) + (seq![item@] + rest2.0) =~= view_nodes(list@).push(
                        item@,
                    ) + rest2.0);
                }
                list.push(item);
                p = p2;
            },
        }
    }
}

/// Code block: optional leading whitespace, a ``` fence, an optional
/// language word, then a multi-line scan to the closing fence.  Once the
/// fence is seen the construct never fails.
pub fn code_block(text: &InnerBuffer, pos: usize) -> (r: Option<(Block, usize)>)
    ensures
        ({
            let g = s_code_block(text@, pos as int);
            match r {
                Some((b, p)) => {
                    &&& g is Some
                    &&& b@ == g.unwrap().0
                    &&& p == g.unwrap().1
                    &&& pos < p <= text@.len()
                },
                None => g is None,
            }
        }),
{
    let n = text.len();
    let mut w: usize = pos;
    while w < n && byte_is_ws(text[w])
        invariant
            n == text@.len(),
            pos <= w,
            w <= n || w == pos,
            crate::grammar::spec_ws_end(text@, pos as int) == crate::grammar::spec_ws_end(
                text@,
                w as int,
            ),
        decreases n - w,
    {
        w = w + 1;
    }
    proof {
        assert(crate::grammar::spec_ws_end(text@, w as int) == w);
    }
    let m3: [u8; 3] = ['`' as u8, '`' as u8, '`' as u8];
    proof {
        assert(m3@ =~= m_tick3());
    }
    let fenced = is(text, w, m3.as_slice());
    if !fenced {
        return None;
    }
    let p0 = check_eat(text, w, m3.as_slice(), 1);
    let (lang, p2): (Vec<u8>, usize) = match get_word(text, p0) {
        Some((s, e)) => (s, e),
        None => (Vec::new(), p0),
    };
    let rr = get_until(text, p2, m3.as_slice(), true);
    Some((Block::CodeBlock { language: lang, text: rr.text }, rr.pos))
}

/// Display math: `$$`, then a multi-line scan to the closing `$$`.
pub fn math_display(text: &InnerBuffer, pos: usize) -> (r: Option<(Block, usize)>)
    ensures
        ({
            let g = s_math_display(text@, pos as int);
            match r {
                Some((b, p)) => {
                    &&& g is Some
                    &&& b@ == g.unwrap().0
                    &&& p == g.unwrap().1
                    &&& pos < p <= text@.len()
                },
                None => g is None,
            }
        }),
{
    let m2: [u8; 2] = ['$' as u8, '$' as u8];
    proof {
        assert(m2@ =~= m_dollar2());
    }
    if is(text, pos, m2.as_slice()) {
        let p0 = check_eat(text, pos, m2.as_slice(), 1);
        let rr = get_until(text, p0, m2.as_slice(), true);
        return Some((Block::MathDisplay { formula: rr.text }, rr.pos));
    }
    None
}

/// The unconditional fallback: one line-bounded inline run, which always
/// succeeds and guarantees document-level progress.
pub fn plain_paragraph(text: &InnerBuffer, pos: usize) -> (r: (Block, usize))
    ensures
        r.0@ == s_plain_paragraph(text@, pos as int).0,
        r.1 == s_plain_paragraph(text@, pos as int).1,
        pos <= r.1,
        pos <= text@.len() ==> r.1 <= text@.len(),
        pos < text@.len() ==> pos < r.1,
{
    let em: Vec<u8> = Vec::new();
    let (nodes, e, _st) = inline(text, pos, false, em.as_slice(), true, true, true);
    (Block::PlainParagraph { text: Inline::Text { nodes } }, e)
}

/// One paragraph-level construct, tried in fixed priority order, first
/// match wins, with no backtracking across alternatives.
pub fn paragraph(text: &InnerBuffer, pos: usize) -> (r: (Block, usize))
    ensures
        r.0@ == s_paragraph(text@, pos as int).0,
        r.1 == s_paragraph(text@, pos as int).1,
        pos <= r.1,
        pos <= text@.len() ==> r.1 <= text@.len(),
        pos < text@.len() ==> pos < r.1,
{
    match heading(text, pos) {
        Some((b, p)) => {
            return (b, p);
        },
        None => {},
    }
    match ordered_list(text, pos) {
        Some((b, p)) => {
            return (b, p);
        },
        None => {},
    }
    match unordered_list(text, pos) {
        Some((b, p)) => {
            return (b, p);
        },
        None => {},
    }
    match quote(text, pos) {
        Some((b, p)) => {
            return (b, p);
        },
        None => {},
    }
    match code_block(text, pos) {
        Some((b, p)) => {
            return (b, p);
        },
        None => {},
    }
    match math_display(text, pos) {
        Some((b, p)) => {
            return (b, p);
        },
        None => {},
    }
    plain_paragraph(text, pos)
}

/// The whole document: paragraphs until the input is exhausted.  Every
/// call consumes the entire remaining buffer: the final position equals the
/// buffer length.
pub fn passage(text: &InnerBuffer, pos: usize) -> (r: (Passage, usize))
    ensures
        r.0@.paragraphs == s_passage(text@, pos as int).0,
        r.1 == s_passage(text@, pos as int).1,
        pos <= text@.len() ==> r.1 == text@.len(),
        pos > text@.len() ==> r.1 == pos,
{
    let n = text.len();
    let ghost g = s_passage(text@, pos as int);
    let mut blocks: Vec<Block> = Vec::new();
    let mut p: usize = pos;
    proof {
        assert(crate::doc::view_blocks(blocks@) =~= Seq::<GBlock>::empty());
        assert(crate::doc::view_blocks(blocks@) + g.0 =~= g.0);
    }
    loop
        invariant
            n == text@.len(),
            pos <= p,
            pos <= n ==> p <= n,
            g == s_passage(text@, pos as int),
            ({
                let rest = s_passage(text@, p as int);
                &&& g.0 == crate::doc::view_blocks(blocks@) + rest.0
                &&& g.1 == rest.1
            }),
        decreases n + 1 - p,
    {
        if p >= n {
            proof {
                let rest = s_passage(text@, p as int);
                assert(rest.0 =~= Seq::<GBlock>::empty());
                assert(crate::doc::view_blocks(blocks@) + rest.0 =~= crate::doc::view_blocks(
                    blocks@,
                ));
            }
            return (Passage { paragraphs: blocks }, p);
        }
        let (b, np) = paragraph(text, p);
        proof {
            assert(adv(p as int, np as int, text@.len() as int) == np);
            let rest = s_passage(text@, p as int);
            let rest2 = s_passage(text@, np as int);
            assert(rest.0 == seq![b@] + rest2.0 && rest.1 == rest2.1);
            assert(crate::doc::view_blocks(blocks@.push(b)) =~= crate::doc::view_blocks(
                blocks@,
            ).push(b@));
            assert(crate::doc::view_blocks(blocks@) + (seq![b@] + rest2.0) =~= crate::doc::view_blocks(
                blocks@,
            ).push(b@) + rest2.0);
        }
        blocks.push(b);
        p = np;
    }
}

/// The top-level entry: parses the whole buffer into one document and
/// serializes it once.  What lands in the sink is a pure function of the
/// input bytes: identical input produces identical output.
pub fn parse<B: Buf>(input: &InnerBuffer, buf: &mut B)
    ensures
        final(buf).contents() == old(buf).contents() + html_of(input@),
{
    let (psg, _end) = passage(input, 0);
    psg.write_to_buf(buf);
}

} // verus!
