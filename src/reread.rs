use vstd::prelude::*;

use crate::format::{
    escape, escape_byte, hex_digit, name_open, pair_close, render_items, render_pair, render_value,
    value_open,
};
use crate::scan::{
    closer_of, first_settled, is_bracket, scan_state, scan_step, ScanState, settled, start_state,
    value_end,
};
use crate::text::{
    BACKSLASH, CLOSE_BRACKET, COLON, COMMA, CR, NEWLINE, OPEN_BRACE, OPEN_BRACKET, QUOTE, SPACE,
    TAB, is_blank, space_byte,
};

verus! {

/// The scanner's state after reading `seg` from state `s`.
pub open spec fn run(s: ScanState, seg: Seq<u8>, open: u8, close: u8) -> ScanState
    decreases seg.len(),
{
    if seg.len() == 0 {
        s
    } else {
        scan_step(run(s, seg.drop_last(), open, close), seg.last(), open, close)
    }
}

/// Reading `seg` from `s`, the scanner is settled after none of its bytes.
pub open spec fn never_settles(s: ScanState, seg: Seq<u8>, open: u8, close: u8) -> bool
    decreases seg.len(),
{
    seg.len() == 0 || (never_settles(s, seg.drop_last(), open, close) && !settled(
        run(s, seg, open, close),
    ))
}

proof fn lemma_run_concat(s: ScanState, a: Seq<u8>, b: Seq<u8>, open: u8, close: u8)
    ensures
        run(s, a + b, open, close) == run(run(s, a, open, close), b, open, close),
        never_settles(s, a + b, open, close) == (never_settles(s, a, open, close)
            && never_settles(run(s, a, open, close), b, open, close)),
    decreases b.len(),
{
    if b.len() == 0 {
        assert(a + b =~= a);
    } else {
        assert((a + b).drop_last() =~= a + b.drop_last());
        assert((a + b).last() == b.last());
        lemma_run_concat(s, a, b.drop_last(), open, close);
    }
}

proof fn lemma_scan_state_is_run(d: Seq<u8>, start: int, j: int, open: u8, close: u8)
    requires
        0 <= start <= j <= d.len(),
    ensures
        scan_state(d, start, j, open, close) == run(start_state(), d.subrange(start, j), open, close),
    decreases j - start,
{
    if j > start {
        lemma_scan_state_is_run(d, start, j - 1, open, close);
        assert(d.subrange(start, j).drop_last() =~= d.subrange(start, j - 1));
    }
}

proof fn lemma_never_settles_prefix(s: ScanState, seg: Seq<u8>, t: int, open: u8, close: u8)
    requires
        never_settles(s, seg, open, close),
        1 <= t <= seg.len(),
    ensures
        !settled(run(s, seg.subrange(0, t), open, close)),
    decreases seg.len(),
{
    if t == seg.len() {
        assert(seg.subrange(0, t) =~= seg);
    } else {
        lemma_never_settles_prefix(s, seg.drop_last(), t, open, close);
        assert(seg.drop_last().subrange(0, t) =~= seg.subrange(0, t));
    }
}

proof fn lemma_first_settled_at(d: Seq<u8>, start: int, m: int, e: int, open: u8, close: u8)
    requires
        0 <= start < m <= e <= d.len(),
        forall|j: int| m <= j < e ==> !settled(#[trigger] scan_state(d, start, j, open, close)),
        settled(scan_state(d, start, e, open, close)),
    ensures
        first_settled(d, start, m, open, close) == Some(e),
    decreases e - m,
{
    if m < e {
        lemma_first_settled_at(d, start, m + 1, e, open, close);
    }
}

/// Outside strings, one bracket deep.
pub open spec fn level_one() -> ScanState {
    ScanState { depth: 1, in_str: false, esc: false }
}

/// Inside a string, one bracket deep.
pub open spec fn level_one_str() -> ScanState {
    ScanState { depth: 1, in_str: true, esc: false }
}

proof fn lemma_blanks(seg: Seq<u8>)
    requires
        forall|i: int| 0 <= i < seg.len() ==> space_byte(#[trigger] seg[i]),
    ensures
        run(level_one(), seg, OPEN_BRACKET, CLOSE_BRACKET) == level_one(),
        never_settles(level_one(), seg, OPEN_BRACKET, CLOSE_BRACKET),
    decreases seg.len(),
{
    if seg.len() > 0 {
        lemma_blanks(seg.drop_last());
    }
}

proof fn lemma_escape_byte(b: u8)
    ensures
        run(level_one_str(), escape_byte(b), OPEN_BRACKET, CLOSE_BRACKET) == level_one_str(),
        never_settles(level_one_str(), escape_byte(b), OPEN_BRACKET, CLOSE_BRACKET),
{
    reveal_with_fuel(run, 7);
    reveal_with_fuel(never_settles, 7);
    let e = escape_byte(b);
    if b < SPACE && b != NEWLINE && b != CR && b != TAB && b != 0x08u8 && b != 0x0cu8 {
        assert(hex_digit(b / 16) != QUOTE && hex_digit(b / 16) != BACKSLASH);
        assert(hex_digit(b % 16) != QUOTE && hex_digit(b % 16) != BACKSLASH);
        assert(e.drop_last().drop_last().drop_last().drop_last().drop_last() =~= seq![BACKSLASH]);
        assert(e.drop_last().drop_last().drop_last().drop_last() =~= seq![BACKSLASH, 0x75u8]);
        assert(e.drop_last().drop_last().drop_last() =~= seq![BACKSLASH, 0x75u8, 0x30u8]);
        assert(e.drop_last().drop_last() =~= seq![BACKSLASH, 0x75u8, 0x30u8, 0x30u8]);
        assert(e.drop_last() =~= seq![BACKSLASH, 0x75u8, 0x30u8, 0x30u8, hex_digit(b / 16)]);
    } else if b == QUOTE || b == BACKSLASH || b == NEWLINE || b == CR || b == TAB || b
        == 0x08u8 || b == 0x0cu8 {
        assert(e.drop_last() =~= seq![BACKSLASH]);
    } else {
        assert(e.drop_last() =~= Seq::<u8>::empty());
    }
}

proof fn lemma_escape(s: Seq<u8>)
    ensures
        run(level_one_str(), escape(s), OPEN_BRACKET, CLOSE_BRACKET) == level_one_str(),
        never_settles(level_one_str(), escape(s), OPEN_BRACKET, CLOSE_BRACKET),
    decreases s.len(),
{
    if s.len() > 0 {
        lemma_escape(s.drop_last());
        lemma_escape_byte(s.last());
        lemma_run_concat(level_one_str(), escape(s.drop_last()), escape_byte(s.last()), OPEN_BRACKET, CLOSE_BRACKET);
    }
}

proof fn lemma_literals()
    ensures
        run(level_one(), name_open(), OPEN_BRACKET, CLOSE_BRACKET) == level_one_str(),
        never_settles(level_one(), name_open(), OPEN_BRACKET, CLOSE_BRACKET),
        run(level_one_str(), value_open(), OPEN_BRACKET, CLOSE_BRACKET) == level_one_str(),
        never_settles(level_one_str(), value_open(), OPEN_BRACKET, CLOSE_BRACKET),
        run(level_one_str(), pair_close(), OPEN_BRACKET, CLOSE_BRACKET) == level_one(),
        never_settles(level_one_str(), pair_close(), OPEN_BRACKET, CLOSE_BRACKET),
        run(level_one(), seq![COMMA, NEWLINE], OPEN_BRACKET, CLOSE_BRACKET) == level_one(),
        never_settles(level_one(), seq![COMMA, NEWLINE], OPEN_BRACKET, CLOSE_BRACKET),
        run(level_one(), seq![NEWLINE], OPEN_BRACKET, CLOSE_BRACKET) == level_one(),
        never_settles(level_one(), seq![NEWLINE], OPEN_BRACKET, CLOSE_BRACKET),
{
    reveal_with_fuel(run, 14);
    reveal_with_fuel(never_settles, 14);
    let n = name_open();
    assert(n.drop_last() =~= seq![OPEN_BRACE, QUOTE, 0x6eu8, 0x61u8, 0x6du8, 0x65u8, QUOTE, COLON, SPACE]);
    assert(n.drop_last().drop_last() =~= seq![OPEN_BRACE, QUOTE, 0x6eu8, 0x61u8, 0x6du8, 0x65u8, QUOTE, COLON]);
    assert(n.drop_last().drop_last().drop_last() =~= seq![OPEN_BRACE, QUOTE, 0x6eu8, 0x61u8, 0x6du8, 0x65u8, QUOTE]);
    assert(n.drop_last().drop_last().drop_last().drop_last() =~= seq![OPEN_BRACE, QUOTE, 0x6eu8, 0x61u8, 0x6du8, 0x65u8]);
    assert(n.drop_last().drop_last().drop_last().drop_last().drop_last() =~= seq![OPEN_BRACE, QUOTE, 0x6eu8, 0x61u8, 0x6du8]);
    assert(n.drop_last().drop_last().drop_last().drop_last().drop_last().drop_last() =~= seq![OPEN_BRACE, QUOTE, 0x6eu8, 0x61u8]);
    assert(n.drop_last().drop_last().drop_last().drop_last().drop_last().drop_last().drop_last() =~= seq![OPEN_BRACE, QUOTE, 0x6eu8]);
    assert(n.drop_last().drop_last().drop_last().drop_last().drop_last().drop_last().drop_last().drop_last() =~= seq![OPEN_BRACE, QUOTE]);
    assert(n.drop_last().drop_last().drop_last().drop_last().drop_last().drop_last().drop_last().drop_last().drop_last() =~= seq![OPEN_BRACE]);
    assert(n.drop_last().drop_last().drop_last().drop_last().drop_last().drop_last().drop_last().drop_last().drop_last().drop_last() =~= Seq::<u8>::empty());
    let v = value_open();
    assert(v.drop_last() =~= v.subrange(0, 12));
    assert(v.subrange(0, 12).drop_last() =~= v.subrange(0, 11));
    assert(v.subrange(0, 11).drop_last() =~= v.subrange(0, 10));
    assert(v.subrange(0, 10).drop_last() =~= v.subrange(0, 9));
    assert(v.subrange(0, 9).drop_last() =~= v.subrange(0, 8));
    assert(v.subrange(0, 8).drop_last() =~= v.subrange(0, 7));
    assert(v.subrange(0, 7).drop_last() =~= v.subrange(0, 6));
    assert(v.subrange(0, 6).drop_last() =~= v.subrange(0, 5));
    assert(v.subrange(0, 5).drop_last() =~= v.subrange(0, 4));
    assert(v.subrange(0, 4).drop_last() =~= v.subrange(0, 3));
    assert(v.subrange(0, 3).drop_last() =~= v.subrange(0, 2));
    assert(v.subrange(0, 2).drop_last() =~= v.subrange(0, 1));
    assert(v.subrange(0, 1).drop_last() =~= Seq::<u8>::empty());
    assert(pair_close().drop_last() =~= seq![QUOTE]);
    assert(pair_close().drop_last().drop_last() =~= Seq::<u8>::empty());
    assert(seq![COMMA, NEWLINE].drop_last() =~= seq![COMMA]);
    assert(seq![COMMA].drop_last() =~= Seq::<u8>::empty());
    assert(seq![NEWLINE].drop_last() =~= Seq::<u8>::empty());
}


proof fn lemma_pair(p: (Seq<u8>, Seq<u8>), inner: Seq<u8>)
    requires
        forall|i: int| 0 <= i < inner.len() ==> space_byte(#[trigger] inner[i]),
    ensures
        run(level_one(), render_pair(p, inner), OPEN_BRACKET, CLOSE_BRACKET) == level_one(),
        never_settles(level_one(), render_pair(p, inner), OPEN_BRACKET, CLOSE_BRACKET),
{
    let o = OPEN_BRACKET;
    let c = CLOSE_BRACKET;
    lemma_blanks(inner);
    lemma_literals();
    lemma_escape(p.0);
    lemma_escape(p.1);
    let s1 = inner;
    let s2 = s1 + name_open();
    let s3 = s2 + escape(p.0);
    let s4 = s3 + value_open();
    let s5 = s4 + escape(p.1);
    lemma_run_concat(level_one(), s1, name_open(), o, c);
    lemma_run_concat(level_one(), s2, escape(p.0), o, c);
    lemma_run_concat(level_one(), s3, value_open(), o, c);
    lemma_run_concat(level_one(), s4, escape(p.1), o, c);
    lemma_run_concat(level_one(), s5, pair_close(), o, c);
}

proof fn lemma_items(ps: Seq<(Seq<u8>, Seq<u8>)>, inner: Seq<u8>)
    requires
        forall|i: int| 0 <= i < inner.len() ==> space_byte(#[trigger] inner[i]),
    ensures
        run(level_one(), render_items(ps, inner), OPEN_BRACKET, CLOSE_BRACKET) == level_one(),
        never_settles(level_one(), render_items(ps, inner), OPEN_BRACKET, CLOSE_BRACKET),
    decreases ps.len(),
{
    if ps.len() == 1 {
        lemma_pair(ps[0], inner);
    } else if ps.len() > 1 {
        lemma_items(ps.drop_last(), inner);
        lemma_pair(ps.last(), inner);
        lemma_literals();
        let a = render_items(ps.drop_last(), inner);
        let sep = seq![COMMA, NEWLINE];
        lemma_run_concat(level_one(), a, sep, OPEN_BRACKET, CLOSE_BRACKET);
        lemma_run_concat(level_one(), a + sep, render_pair(ps.last(), inner), OPEN_BRACKET, CLOSE_BRACKET);
    }
}

/// The scanner reads a rendered value back exactly: whatever stands before
/// and after it, the value that starts where the rendered array starts ends
/// where it ends.
pub proof fn lemma_rendered_value_reads_back(
    pre: Seq<u8>,
    ps: Seq<(Seq<u8>, Seq<u8>)>,
    indent: Seq<u8>,
    post: Seq<u8>,
)
    requires
        forall|i: int| 0 <= i < indent.len() ==> space_byte(#[trigger] indent[i]),
    ensures
        value_end(pre + render_value(ps, indent) + post, pre.len() as int) == Some(
            (pre.len() + render_value(ps, indent).len()) as int,
        ),
{
    let o = OPEN_BRACKET;
    let c = CLOSE_BRACKET;
    let r = render_value(ps, indent);
    let d = pre + r + post;
    let start = pre.len() as int;
    reveal_with_fuel(run, 3);
    reveal_with_fuel(never_settles, 3);
    assert(seq![OPEN_BRACKET, NEWLINE].drop_last() =~= seq![OPEN_BRACKET]);
    assert(seq![OPEN_BRACKET].drop_last() =~= Seq::<u8>::empty());
    assert(seq![OPEN_BRACKET, CLOSE_BRACKET].drop_last() =~= seq![OPEN_BRACKET]);
    if ps.len() > 0 {
        let inner = indent + seq![SPACE, SPACE, SPACE, SPACE];
        assert forall|i: int| 0 <= i < inner.len() implies space_byte(#[trigger] inner[i]) by {
            if i >= indent.len() {
                assert(inner[i] == SPACE);
                assert(is_blank(SPACE));
            } else {
                assert(inner[i] == indent[i]);
            }
        }
        lemma_items(ps, inner);
        lemma_literals();
        lemma_blanks(indent);
        let s1 = seq![OPEN_BRACKET, NEWLINE];
        let s2 = s1 + render_items(ps, inner);
        let s3 = s2 + seq![NEWLINE];
        let s4 = s3 + indent;
        lemma_run_concat(start_state(), s1, render_items(ps, inner), o, c);
        lemma_run_concat(start_state(), s2, seq![NEWLINE], o, c);
        lemma_run_concat(start_state(), s3, indent, o, c);
        lemma_run_concat(start_state(), s4, seq![CLOSE_BRACKET], o, c);
        assert(r =~= s4 + seq![CLOSE_BRACKET]);
        assert(r.drop_last() =~= s4);
    }
    assert(r.len() >= 2);
    assert(never_settles(start_state(), r.drop_last(), o, c));
    assert(settled(run(start_state(), r, o, c)));
    assert(d[start] == OPEN_BRACKET);
    assert(d.subrange(start, start + r.len()) =~= r);
    assert forall|j: int| start + 1 <= j < start + r.len() implies !settled(
        #[trigger] scan_state(d, start, j, o, c),
    ) by {
        lemma_scan_state_is_run(d, start, j, o, c);
        lemma_never_settles_prefix(start_state(), r.drop_last(), j - start, o, c);
        assert(r.drop_last().subrange(0, j - start) =~= d.subrange(start, j));
    }
    lemma_scan_state_is_run(d, start, start + r.len(), o, c);
    lemma_first_settled_at(d, start, start + 1, start + r.len(), o, c);
    assert(is_bracket(d[start]) && closer_of(d[start]) == c);
}

} // verus!
