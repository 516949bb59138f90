//! Byte-cursor primitives: literal matching, greedy repeat counting, bounded
//! consumption, and word / terminator scanning over a byte buffer addressed by
//! an integer position.  A matcher never mutates shared state: it receives a
//! position and returns a new one, so a failed alternative costs nothing.

use vstd::prelude::*;

verus! {

/// One unit of the input buffer.
pub type InnerByte = u8;

/// The whole input is held in memory as one byte buffer.
pub type InnerBuffer = Vec<InnerByte>;

/// Sentinel returned by `character` past the end of the buffer.
pub const CH_EOF: u32 = 0xFFFF_FFFF;

/// A stored NUL byte is reported as the Unicode replacement character,
/// a defensive rule carried over from the target markup specification.
pub const CH_REPLACEMENT: u32 = 0xFFFD;

/// Exact bounded literal match at `pos`; an empty literal never matches.
pub open spec fn spec_is(text: Seq<u8>, pos: int, s: Seq<u8>) -> bool {
    &&& s.len() > 0
    &&& 0 <= pos
    &&& pos + s.len() <= text.len()
    &&& text.subrange(pos, pos + s.len()) == s
}

/// Greedy, non-backtracking count of consecutive occurrences of `s` at `pos`.
pub open spec fn spec_count(text: Seq<u8>, pos: int, s: Seq<u8>) -> nat
    decreases text.len() - pos,
{
    if spec_is(text, pos, s) {
        (1 + spec_count(text, pos + s.len(), s)) as nat
    } else {
        0
    }
}

/// The value `character` reports at `pos`: the byte itself, the replacement
/// sentinel for a stored NUL, or the end-of-input sentinel past the end.
pub open spec fn spec_character(text: Seq<u8>, pos: int) -> u32 {
    if 0 <= pos < text.len() {
        if text[pos] == 0 {
            CH_REPLACEMENT
        } else {
            text[pos] as u32
        }
    } else {
        CH_EOF
    }
}

pub fn is(text: &InnerBuffer, pos: usize, s: &[u8]) -> (r: bool)
    ensures
        r == spec_is(text@, pos as int, s@),
{
    if s.len() == 0 {
        return false;
    }
    if pos >= text.len() || s.len() > text.len() - pos {
        return false;
    }
    let mut i: usize = 0;
    while i < s.len()
        invariant
            0 <= i <= s@.len(),
            pos + s@.len() <= text@.len(),
            text@.len() <= usize::MAX,
            forall|j: int| 0 <= j < i ==> text@[pos + j] == s@[j],
        decreases s@.len() - i,
    {
        if text[pos + i] != s[i] {
            assert(text@.subrange(pos as int, pos + s@.len())[i as int] != s@[i as int]);
            return false;
        }
        i += 1;
    }
    assert(text@.subrange(pos as int, pos + s@.len()) =~= s@);
    true
}

pub fn count(text: &InnerBuffer, pos: usize, s: &[u8]) -> (r: usize)
    ensures
        r == spec_count(text@, pos as int, s@),
{
    let n = text.len();
    let mut cnt: usize = 0;
    let mut p: usize = pos;
    loop
        invariant
            n == text@.len(),
            pos <= p,
            cnt <= p - pos,
            p <= usize::MAX,
            spec_count(text@, pos as int, s@) == cnt + spec_count(text@, p as int, s@),
        decreases text@.len() + 1 - p,
    {
        if is(text, p, s) {
            p = p + s.len();
            cnt = cnt + 1;
        } else {
            return cnt;
        }
    }
}

/// `spec_count(text, pos, s) >= cnt` puts `cnt` whole copies of `s` inside the
/// buffer, so consuming them stays in bounds.
pub proof fn lemma_count_fits(text: Seq<u8>, pos: int, s: Seq<u8>, cnt: nat)
    requires
        0 <= pos,
        spec_count(text, pos, s) >= cnt,
    ensures
        cnt > 0 ==> pos + cnt * s.len() <= text.len(),
    decreases cnt,
{
    if cnt > 0 {
        assert(spec_is(text, pos, s));
        lemma_count_fits(text, pos + s.len(), s, (cnt - 1) as nat);
        assert((cnt - 1) * s.len() + s.len() == cnt * s.len()) by (nonlinear_arith);
    }
}

/// Bounded consumption: advances `pos` over `cnt` verified repeats of `s`.
/// The precondition is the caller's duty; the grammar always counts first.
pub fn check_eat(text: &InnerBuffer, pos: usize, s: &[u8], cnt: usize) -> (r: usize)
    requires
        spec_count(text@, pos as int, s@) >= cnt,
    ensures
        r == pos + cnt * s@.len(),
        cnt > 0 ==> r <= text@.len(),
        cnt == 0 ==> r == pos,
{
    let n = text.len();
    proof {
        lemma_count_fits(text@, pos as int, s@, cnt as nat);
    }
    if cnt == 0 {
        assert(cnt * s@.len() == 0) by (nonlinear_arith)
            requires
                cnt == 0,
        ;
        return pos;
    }
    assert(pos + cnt * s@.len() <= n);
    pos + cnt * s.len()
}

/// Byte at `pos`, with the NUL-substitution and end-of-input sentinels.
pub fn character(text: &InnerBuffer, pos: usize) -> (r: u32)
    ensures
        r == spec_character(text@, pos as int),
{
    if pos < text.len() {
        let ch = text[pos];
        if ch == 0 {
            return CH_REPLACEMENT;
        }
        return ch as u32;
    }
    CH_EOF
}

pub fn is_eof(text: &InnerBuffer, pos: usize) -> (r: bool)
    ensures
        r == (pos >= text@.len()),
{
    pos >= text.len()
}

/// 1 for a lone newline, 2 for a carriage return followed by a newline,
/// 1 for a lone carriage return, 0 otherwise.
pub open spec fn spec_is_line_ending(text: Seq<u8>, pos: int) -> int {
    if spec_character(text, pos) == ('\n' as u32) {
        1
    } else if spec_character(text, pos) == ('\r' as u32) {
        if spec_character(text, pos + 1) == ('\n' as u32) {
            2
        } else {
            1
        }
    } else {
        0
    }
}

pub fn is_line_ending(text: &InnerBuffer, pos: usize) -> (r: u32)
    ensures
        r == spec_is_line_ending(text@, pos as int),
{
    let n = text.len();
    if character(text, pos) == '\n' as u32 {
        return 1;
    }
    if character(text, pos) == '\r' as u32 {
        if pos < usize::MAX && character(text, pos + 1) == '\n' as u32 {
            return 2;
        }
        return 1;
    }
    0
}

pub open spec fn spec_is_alnum(b: u8) -> bool {
    ('0' as u8) <= b <= ('9' as u8) || ('A' as u8) <= b <= ('Z' as u8) || ('a' as u8) <= b <= (
    'z' as u8)
}

pub open spec fn spec_is_ws(b: u8) -> bool {
    b == (' ' as u8) || b == ('\t' as u8) || b == ('\n' as u8) || b == 0x0c || b == ('\r' as u8)
}

pub fn byte_is_alnum(b: u8) -> (r: bool)
    ensures
        r == spec_is_alnum(b),
{
    (b >= '0' as u8 && b <= '9' as u8) || (b >= 'A' as u8 && b <= 'Z' as u8) || (b >= 'a' as u8 && b
        <= 'z' as u8)
}

pub fn byte_is_ws(b: u8) -> (r: bool)
    ensures
        r == spec_is_ws(b),
{
    b == ' ' as u8 || b == '\t' as u8 || b == '\n' as u8 || b == 0x0c || b == '\r' as u8
}

/// Where the run of ASCII alphanumeric bytes starting at `pos` ends.
pub open spec fn spec_word_end(text: Seq<u8>, pos: int) -> int
    decreases text.len() - pos,
{
    if 0 <= pos < text.len() && spec_is_alnum(text[pos]) {
        spec_word_end(text, pos + 1)
    } else {
        pos
    }
}

pub proof fn lemma_word_end_bounds(text: Seq<u8>, pos: int)
    requires
        0 <= pos <= text.len(),
    ensures
        pos <= spec_word_end(text, pos) <= text.len(),
    decreases text.len() - pos,
{
    if pos < text.len() && spec_is_alnum(text[pos]) {
        lemma_word_end_bounds(text, pos + 1);
    }
}

/// Longest run of ASCII alphanumeric bytes from `pos`, or nothing when the
/// byte there is not alphanumeric or the input has ended.
pub open spec fn spec_get_word(text: Seq<u8>, pos: int) -> Option<(Seq<u8>, int)> {
    if 0 <= pos < text.len() && spec_is_alnum(text[pos]) {
        Some((text.subrange(pos, spec_word_end(text, pos)), spec_word_end(text, pos)))
    } else {
        None
    }
}

pub fn get_word(text: &InnerBuffer, pos: usize) -> (r: Option<(InnerBuffer, usize)>)
    ensures
        r is Some == spec_get_word(text@, pos as int) is Some,
        r is Some ==> {
            let (w, e) = spec_get_word(text@, pos as int).unwrap();
            &&& r.unwrap().0@ == w
            &&& r.unwrap().1 == e
            &&& pos < r.unwrap().1 <= text@.len()
        },
{
    let n = text.len();
    if pos >= n || !byte_is_alnum(text[pos]) {
        return None;
    }
    let mut num: InnerBuffer = Vec::new();
    let mut p: usize = pos;
    while p < n && byte_is_alnum(text[p])
        invariant
            n == text@.len(),
            pos <= p <= n,
            num@ == text@.subrange(pos as int, p as int),
            spec_word_end(text@, pos as int) == spec_word_end(text@, p as int),
        decreases n - p,
    {
        num.push(text[p]);
        assert(num@ =~= text@.subrange(pos as int, p + 1));
        p = p + 1;
    }
    proof {
        lemma_word_end_bounds(text@, p as int);
        assert(spec_word_end(text@, p as int) == p);
    }
    Some((num, p))
}

/// What a terminator scan hands back: the bytes gathered, the new position,
/// and whether the terminator itself was found and consumed.
pub struct GetUntilResult {
    pub text: InnerBuffer,
    pub pos: usize,
    pub reached_target: bool,
}

/// Ghost counterpart of `GetUntilResult`.
pub struct ScanOut {
    pub text: Seq<u8>,
    pub pos: int,
    pub reached_target: bool,
}

/// Accumulates bytes until the literal `until` is found (consuming it) or,
/// in single-line mode, a bare newline is hit (left unconsumed), or the
/// input ends.
pub open spec fn spec_get_until(text: Seq<u8>, pos: int, until: Seq<u8>, multi_lines: bool) -> ScanOut
    decreases text.len() - pos,
{
    if !(0 <= pos < text.len()) {
        ScanOut { text: Seq::empty(), pos, reached_target: false }
    } else if !multi_lines && text[pos] == ('\n' as u8) {
        ScanOut { text: Seq::empty(), pos, reached_target: false }
    } else if spec_is(text, pos, until) {
        ScanOut { text: Seq::empty(), pos: pos + until.len(), reached_target: true }
    } else {
        let r = spec_get_until(text, pos + 1, until, multi_lines);
        ScanOut { text: seq![text[pos]] + r.text, pos: r.pos, reached_target: r.reached_target }
    }
}

/// As `spec_get_until`, but stopping on the first space or closing
/// parenthesis, consuming that one byte.
pub open spec fn spec_get_until_sp(text: Seq<u8>, pos: int, multi_lines: bool) -> ScanOut
    decreases text.len() - pos,
{
    if !(0 <= pos < text.len()) {
        ScanOut { text: Seq::empty(), pos, reached_target: false }
    } else if !multi_lines && text[pos] == ('\n' as u8) {
        ScanOut { text: Seq::empty(), pos, reached_target: false }
    } else if text[pos] == (' ' as u8) || text[pos] == (')' as u8) {
        ScanOut { text: Seq::empty(), pos: pos + 1, reached_target: true }
    } else {
        let r = spec_get_until_sp(text, pos + 1, multi_lines);
        ScanOut { text: seq![text[pos]] + r.text, pos: r.pos, reached_target: r.reached_target }
    }
}

/// The two stop rules the grammar scans with: a fixed literal, or the first
/// space or closing parenthesis (which bounds a link or image URL).
pub enum UntilPattern<'a> {
    Literal(&'a [u8]),
    SpaceOrParen,
}

pub open spec fn spec_until_scan(
    p: UntilPattern,
    text: Seq<u8>,
    pos: int,
    multi_lines: bool,
) -> ScanOut {
    match p {
        UntilPattern::Literal(m) => spec_get_until(text, pos, m@, multi_lines),
        UntilPattern::SpaceOrParen => spec_get_until_sp(text, pos, multi_lines),
    }
}

pub fn get_until_pattern(
    text: &InnerBuffer,
    pos: usize,
    until: &UntilPattern,
    new_line: bool,
) -> (r: GetUntilResult)
    ensures
        ({
            let s = spec_until_scan(*until, text@, pos as int, new_line);
            &&& r.text@ == s.text
            &&& r.pos == s.pos
            &&& r.reached_target == s.reached_target
            &&& pos + r.text@.len() <= r.pos
            &&& pos <= text@.len() ==> r.pos <= text@.len()
        }),
{
    let n = text.len();
    let mut buf: InnerBuffer = Vec::new();
    let mut p: usize = pos;
    loop
        invariant
            n == text@.len(),
            pos <= p <= usize::MAX,
            pos + buf@.len() == p,
            p <= n || p == pos,
            ({
                let full = spec_until_scan(*until, text@, pos as int, new_line);
                let rest = spec_until_scan(*until, text@, p as int, new_line);
                &&& full.text == buf@ + rest.text
                &&& full.pos == rest.pos
                &&& full.reached_target == rest.reached_target
            }),
        decreases n + 1 - p,
    {
        if p >= n {
            assert(spec_until_scan(*until, text@, p as int, new_line).text =~= Seq::<u8>::empty());
            assert(buf@ + Seq::<u8>::empty() =~= buf@);
            return GetUntilResult { text: buf, pos: p, reached_target: false };
        }
        if !new_line && text[p] == '\n' as u8 {
            assert(buf@ + Seq::<u8>::empty() =~= buf@);
            return GetUntilResult { text: buf, pos: p, reached_target: false };
        }
        match until {
            UntilPattern::Literal(m) => {
                if is(text, p, m) {
                    let q = check_eat(text, p, m, 1);
                    assert(buf@ + Seq::<u8>::empty() =~= buf@);
                    return GetUntilResult { text: buf, pos: q, reached_target: true };
                }
            },
            UntilPattern::SpaceOrParen => {
                if text[p] == ' ' as u8 || text[p] == ')' as u8 {
                    assert(buf@ + Seq::<u8>::empty() =~= buf@);
                    return GetUntilResult { text: buf, pos: p + 1, reached_target: true };
                }
            },
        }
        let ghost prev = buf@;
        buf.push(text[p]);
        proof {
            let rest = spec_until_scan(*until, text@, p as int, new_line);
            let next = spec_until_scan(*until, text@, p + 1, new_line);
            assert(rest.text == seq![text@[p as int]] + next.text);
            assert(prev + rest.text =~= buf@ + next.text);
        }
        p = p + 1;
    }
}

pub fn get_until(text: &InnerBuffer, pos: usize, until: &[u8], multi_lines: bool) -> (r:
    GetUntilResult)
    ensures
        ({
            let s = spec_get_until(text@, pos as int, until@, multi_lines);
            &&& r.text@ == s.text
            &&& r.pos == s.pos
            &&& r.reached_target == s.reached_target
            &&& pos + r.text@.len() <= r.pos
            &&& pos <= text@.len() ==> r.pos <= text@.len()
        }),
{
    get_until_pattern(text, pos, &UntilPattern::Literal(until), multi_lines)
}

/// The sequence with its leading ASCII whitespace removed.
pub open spec fn spec_trim_start(s: Seq<u8>) -> Seq<u8>
    decreases s.len(),
{
    if s.len() > 0 && spec_is_ws(s[0]) {
        spec_trim_start(s.drop_first())
    } else {
        s
    }
}

/// The sequence with its trailing ASCII whitespace removed.
pub open spec fn spec_trim_end(s: Seq<u8>) -> Seq<u8>
    decreases s.len(),
{
    if s.len() > 0 && spec_is_ws(s.last()) {
        spec_trim_end(s.drop_last())
    } else {
        s
    }
}

pub fn trim_left(buf: &mut InnerBuffer)
    ensures
        final(buf)@ == spec_trim_start(old(buf)@),
{
    let n = buf.len();
    let mut k: usize = 0;
    assert(buf@.subrange(0, n as int) =~= buf@);
    while k < n && byte_is_ws(buf[k])
        invariant
            n == buf@.len(),
            0 <= k <= n,
            *buf == *old(buf),
            spec_trim_start(buf@) == spec_trim_start(buf@.subrange(k as int, n as int)),
        decreases n - k,
    {
        proof {
            let rest = buf@.subrange(k as int, n as int);
            assert(rest.drop_first() =~= buf@.subrange(k + 1, n as int));
        }
        k = k + 1;
    }
    let mut out: InnerBuffer = Vec::new();
    let mut i: usize = k;
    while i < n
        invariant
            n == buf@.len(),
            k <= i <= n,
            *buf == *old(buf),
            out@ == buf@.subrange(k as int, i as int),
        decreases n - i,
    {
        out.push(buf[i]);
        assert(out@ =~= buf@.subrange(k as int, i + 1));
        i = i + 1;
    }
    proof {
        let tail = buf@.subrange(k as int, n as int);
        assert(tail.len() == 0 || !spec_is_ws(tail[0]));
        assert(spec_trim_start(tail) == tail);
    }
    *buf = out;
}

pub fn trim_right(buf: &mut InnerBuffer)
    ensures
        final(buf)@ == spec_trim_end(old(buf)@),
{
    loop
        invariant
            spec_trim_end(buf@) == spec_trim_end(old(buf)@),
        decreases buf@.len(),
    {
        let n = buf.len();
        if n == 0 {
            return ;
        }
        if byte_is_ws(buf[n - 1]) {
            proof {
                assert(buf@.last() == buf@[n - 1]);
            }
            let ghost before = buf@;
            buf.pop();
            proof {
                assert(buf@ =~= before.drop_last());
            }
        } else {
            proof {
                assert(buf@.last() == buf@[n - 1]);
            }
            return ;
        }
    }
}

pub fn trim(buf: &mut InnerBuffer)
    ensures
        final(buf)@ == spec_trim_start(spec_trim_end(old(buf)@)),
{
    trim_right(buf);
    trim_left(buf);
}

} // verus!
