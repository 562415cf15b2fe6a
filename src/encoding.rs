use vstd::prelude::*;
use vstd::utf8::*;

use crate::format::{
    first_indented_from, lemma_first_indented,
    default_indent, escape, escape_byte, hex_digit, indent_of, lemma_indent_is_space, name_open,
    pair_close, render_items, render_pair, render_value, value_open,
};
use crate::laws::lemma_last_brace;
use crate::locate::{first_key, key_name_end, lemma_first_key, value_start};
use crate::patch::{
    cleared, entry_text, inserted, last_brace, removal_end, removal_start, replaced, synced,
    wrapped,
};
use crate::scan::{
    closer_of, first_delim, first_settled, is_bracket, is_delim, lemma_value_end_bounds, scan_state,
    scan_step, settled, value_end,
};
use crate::text::{
    lemma_skip_space, skip_space, space_width,
    CLOSE_BRACE, CLOSE_BRACKET, COLON, COMMA, NEWLINE, OPEN_BRACE, OPEN_BRACKET, QUOTE, SPACE,
    back_blank, back_ws, is_blank, lemma_back_blank, lemma_back_ws, lemma_skip_blank, lemma_skip_ws,
    skip_blank, skip_ws,
};

verus! {

/// Relies on `String::from_utf8`: valid UTF-8 bytes become the string
/// they encode.
#[verifier::external_body]
pub(crate) fn utf8_to_string(v: Vec<u8>) -> (r: String)
    requires
        valid_utf8(v@),
    ensures
        encode_utf8(r@) == v@,
{
    match String::from_utf8(v) {
        Ok(s) => s,
        Err(_) => String::new(),
    }
}

/// Every byte is ASCII.
pub open spec fn all_ascii(t: Seq<u8>) -> bool {
    forall|i: int| 0 <= i < t.len() ==> #[trigger] t[i] < 0x80u8
}

/// ASCII bytes are valid UTF-8.
pub proof fn lemma_ascii_valid(t: Seq<u8>)
    requires
        all_ascii(t),
    ensures
        valid_utf8(t),
    decreases t.len(),
{
    if t.len() > 0 {
        let b = t[0];
        assert((b & 0x7fu8) <= 0x7fu8) by (bit_vector);
        assert(valid_first_scalar(t));
        assert(length_of_first_scalar(t) == 1);
        lemma_ascii_valid(pop_first_scalar(t));
    }
}

/// Cutting valid UTF-8 at an ASCII byte leaves valid UTF-8 on both sides.
pub proof fn lemma_cut_at_ascii(d: Seq<u8>, a: int)
    requires
        valid_utf8(d),
        0 <= a <= d.len(),
        a == 0 || a == d.len() || d[a] < 0x80u8,
    ensures
        valid_utf8(d.subrange(0, a)),
        valid_utf8(d.subrange(a, d.len() as int)),
{
    is_char_boundary_start_end_of_seq(d);
    if 0 < a < d.len() {
        is_char_boundary_iff_not_is_continuation_byte(d, a);
    }
    valid_utf8_split(d, a);
}

/// Cutting valid UTF-8 right after an ASCII byte leaves valid UTF-8 on both sides.
pub proof fn lemma_cut_after_ascii(d: Seq<u8>, a: int)
    requires
        valid_utf8(d),
        0 < a <= d.len(),
        d[a - 1] < 0x80u8,
    ensures
        valid_utf8(d.subrange(0, a)),
        valid_utf8(d.subrange(a, d.len() as int)),
{
    lemma_cut_at_ascii(d, a - 1);
    let x = d.subrange(a - 1, d.len() as int);
    assert(x[0] == d[a - 1]);
    assert(length_of_first_scalar(x) == 1);
    assert(pop_first_scalar(x) =~= d.subrange(a, d.len() as int));
    let one = seq![d[a - 1]];
    lemma_ascii_valid(one);
    valid_utf8_concat(d.subrange(0, a - 1), one);
    assert(d.subrange(0, a - 1) + one =~= d.subrange(0, a));
}

proof fn lemma_escape_concat(a: Seq<u8>, b: Seq<u8>)
    ensures
        escape(a + b) == escape(a) + escape(b),
    decreases b.len(),
{
    if b.len() == 0 {
        assert(a + b =~= a);
        assert(escape(a) + escape(b) =~= escape(a));
    } else {
        assert((a + b).drop_last() =~= a + b.drop_last());
        lemma_escape_concat(a, b.drop_last());
        assert(escape(a) + escape(b) =~= escape(a) + escape(b.drop_last()) + escape_byte(
            b.last(),
        ));
    }
}

proof fn lemma_escape_high(t: Seq<u8>)
    requires
        forall|i: int| 0 <= i < t.len() ==> #[trigger] t[i] >= 0x80u8,
    ensures
        escape(t) == t,
    decreases t.len(),
{
    if t.len() > 0 {
        lemma_escape_high(t.drop_last());
        assert(t.drop_last().push(t.last()) =~= t);
    }
}

proof fn lemma_escape_byte_ascii(b: u8)
    requires
        b < 0x80u8,
    ensures
        all_ascii(escape_byte(b)),
{
    assert(hex_digit(b / 16) < 0x80u8);
    assert(hex_digit(b % 16) < 0x80u8);
}

/// Escaping keeps UTF-8 valid: it only replaces ASCII bytes by ASCII text.
pub proof fn lemma_escape_valid(s: Seq<u8>)
    requires
        valid_utf8(s),
    ensures
        valid_utf8(escape(s)),
    decreases s.len(),
{
    if s.len() > 0 {
        let w = length_of_first_scalar(s);
        let t = s.subrange(0, w);
        let r = pop_first_scalar(s);
        assert(s =~= t + r);
        lemma_escape_concat(t, r);
        lemma_escape_valid(r);
        if w == 1 {
            assert(t =~= Seq::<u8>::empty().push(s[0]));
            assert(t.drop_last() =~= Seq::<u8>::empty());
            assert(t.last() == s[0]);
            assert(escape(t.drop_last()) =~= Seq::<u8>::empty());
            assert(escape(t) == escape(t.drop_last()) + escape_byte(t.last()));
            lemma_escape_byte_ascii(s[0]);
            lemma_ascii_valid(escape_byte(s[0]));
            assert(escape(t) =~= escape_byte(s[0]));
        } else {
            assert forall|i: int| 0 <= i < t.len() implies #[trigger] t[i] >= 0x80u8 by {}
            lemma_escape_high(t);
            reveal_with_fuel(valid_utf8, 2);
            assert(valid_first_scalar(t));
            assert(pop_first_scalar(t) =~= Seq::<u8>::empty());
            assert(valid_utf8(t));
        }
        valid_utf8_concat(escape(t), escape(r));
    }
}


proof fn lemma_literals_ascii()
    ensures
        all_ascii(name_open()),
        all_ascii(value_open()),
        all_ascii(pair_close()),
        all_ascii(seq![COMMA, NEWLINE]),
        all_ascii(seq![NEWLINE]),
        all_ascii(seq![OPEN_BRACKET, NEWLINE]),
        all_ascii(seq![OPEN_BRACKET, CLOSE_BRACKET]),
        all_ascii(seq![CLOSE_BRACKET]),
        all_ascii(default_indent()),
{
}

proof fn lemma_pair_valid(p: (Seq<u8>, Seq<u8>), inner: Seq<u8>)
    requires
        valid_utf8(inner),
        valid_utf8(p.0),
        valid_utf8(p.1),
    ensures
        valid_utf8(render_pair(p, inner)),
{
    lemma_literals_ascii();
    lemma_ascii_valid(name_open());
    lemma_ascii_valid(value_open());
    lemma_ascii_valid(pair_close());
    lemma_escape_valid(p.0);
    lemma_escape_valid(p.1);
    let s1 = inner + name_open();
    valid_utf8_concat(inner, name_open());
    let s2 = s1 + escape(p.0);
    valid_utf8_concat(s1, escape(p.0));
    let s3 = s2 + value_open();
    valid_utf8_concat(s2, value_open());
    let s4 = s3 + escape(p.1);
    valid_utf8_concat(s3, escape(p.1));
    valid_utf8_concat(s4, pair_close());
}

proof fn lemma_items_valid(ps: Seq<(Seq<u8>, Seq<u8>)>, inner: Seq<u8>)
    requires
        valid_utf8(inner),
        forall|i: int| 0 <= i < ps.len() ==> valid_utf8(#[trigger] ps[i].0) && valid_utf8(ps[i].1),
    ensures
        valid_utf8(render_items(ps, inner)),
    decreases ps.len(),
{
    if ps.len() == 1 {
        lemma_pair_valid(ps[0], inner);
    } else if ps.len() > 1 {
        let last = ps.last();
        assert(valid_utf8(ps[ps.len() - 1].0));
        lemma_items_valid(ps.drop_last(), inner);
        lemma_pair_valid(last, inner);
        lemma_literals_ascii();
        let sep = seq![COMMA, NEWLINE];
        lemma_ascii_valid(sep);
        valid_utf8_concat(render_items(ps.drop_last(), inner), sep);
        valid_utf8_concat(render_items(ps.drop_last(), inner) + sep, render_pair(last, inner));
    }
}

/// A rendered value is valid UTF-8 when the pairs are.
pub proof fn lemma_render_valid(ps: Seq<(Seq<u8>, Seq<u8>)>, indent: Seq<u8>)
    requires
        valid_utf8(indent),
        forall|i: int| 0 <= i < ps.len() ==> valid_utf8(#[trigger] ps[i].0) && valid_utf8(ps[i].1),
    ensures
        valid_utf8(render_value(ps, indent)),
{
    lemma_literals_ascii();
    if ps.len() == 0 {
        lemma_ascii_valid(seq![OPEN_BRACKET, CLOSE_BRACKET]);
    } else {
        let inner = indent + default_indent();
        lemma_ascii_valid(default_indent());
        valid_utf8_concat(indent, default_indent());
        lemma_items_valid(ps, inner);
        let a = seq![OPEN_BRACKET, NEWLINE];
        lemma_ascii_valid(a);
        lemma_ascii_valid(seq![NEWLINE]);
        lemma_ascii_valid(seq![CLOSE_BRACKET]);
        let s1 = a + render_items(ps, inner);
        valid_utf8_concat(a, render_items(ps, inner));
        let s2 = s1 + seq![NEWLINE];
        valid_utf8_concat(s1, seq![NEWLINE]);
        let s3 = s2 + indent;
        valid_utf8_concat(s2, indent);
        valid_utf8_concat(s3, seq![CLOSE_BRACKET]);
    }
}

proof fn lemma_scan_escape_in_string(d: Seq<u8>, start: int, j: int, open: u8, close: u8)
    ensures
        scan_state(d, start, j, open, close).esc ==> scan_state(d, start, j, open, close).in_str,
    decreases j - start,
{
    if j > start {
        lemma_scan_escape_in_string(d, start, j - 1, open, close);
    }
}

proof fn lemma_first_settled_facts(d: Seq<u8>, start: int, m: int, open: u8, close: u8)
    requires
        0 <= m,
    ensures
        first_settled(d, start, m, open, close) matches Some(j) ==> {
            &&& m <= j <= d.len()
            &&& settled(scan_state(d, start, j, open, close))
            &&& forall|x: int| m <= x < j ==> !settled(#[trigger] scan_state(d, start, x, open, close))
        },
    decreases d.len() + 1 - m,
{
    if m <= d.len() && !settled(scan_state(d, start, m, open, close)) {
        lemma_first_settled_facts(d, start, m + 1, open, close);
    }
}

proof fn lemma_first_delim_facts(d: Seq<u8>, m: int)
    requires
        0 <= m <= d.len(),
    ensures
        first_delim(d, m) == d.len() || is_delim(d[first_delim(d, m)]),
        m <= first_delim(d, m) <= d.len(),
    decreases d.len() - m,
{
    if m < d.len() && !is_delim(d[m]) {
        lemma_first_delim_facts(d, m + 1);
    }
}

proof fn lemma_span_end_ascii(d: Seq<u8>, s: int, open: u8, close: u8)
    requires
        0 <= s < d.len(),
        d[s] == open,
        open < 0x80u8,
        close < 0x80u8,
        first_settled(d, s, s + 1, open, close) is Some,
    ensures
        ({
            let j = first_settled(d, s, s + 1, open, close)->0;
            0 < j <= d.len() && d[j - 1] < 0x80u8
        }),
{
    lemma_first_settled_facts(d, s, s + 1, open, close);
    let j = first_settled(d, s, s + 1, open, close)->0;
    if j > s + 1 {
        lemma_scan_escape_in_string(d, s, j - 1, open, close);
        assert(!settled(scan_state(d, s, j - 1, open, close)));
        assert(scan_state(d, s, j, open, close) == scan_step(
            scan_state(d, s, j - 1, open, close),
            d[j - 1],
            open,
            close,
        ));
        assert(d[j - 1] == close || d[j - 1] == QUOTE || d[j - 1] == open);
    }
}

/// A value ends next to an ASCII byte, or at the end: a place where valid
/// UTF-8 can be cut.
pub proof fn lemma_value_end_at_ascii(d: Seq<u8>, s: int)
    requires
        value_end(d, s) is Some,
    ensures
        ({
            let j = value_end(d, s)->0;
            &&& 0 <= j <= d.len()
            &&& j == d.len() || d[j] < 0x80u8 || (j > 0 && d[j - 1] < 0x80u8)
        }),
{
    if is_bracket(d[s]) {
        lemma_span_end_ascii(d, s, d[s], closer_of(d[s]));
    } else if d[s] == QUOTE {
        lemma_span_end_ascii(d, s, QUOTE, QUOTE);
    } else {
        lemma_first_delim_facts(d, s);
    }
}

/// Valid UTF-8 stays valid with its part before `a` and its part from `b`.
pub proof fn lemma_cut_valid(d: Seq<u8>, a: int)
    requires
        valid_utf8(d),
        0 <= a <= d.len(),
        a == 0 || a == d.len() || d[a] < 0x80u8 || d[a - 1] < 0x80u8,
    ensures
        valid_utf8(d.subrange(0, a)),
        valid_utf8(d.subrange(a, d.len() as int)),
{
    if a == 0 || a == d.len() || d[a] < 0x80u8 {
        lemma_cut_at_ascii(d, a);
    } else {
        lemma_cut_after_ascii(d, a);
    }
}


proof fn lemma_concat3(a: Seq<u8>, b: Seq<u8>, c: Seq<u8>)
    requires
        valid_utf8(a),
        valid_utf8(b),
        valid_utf8(c),
    ensures
        valid_utf8(a + b + c),
{
    valid_utf8_concat(a, b);
    valid_utf8_concat(a + b, c);
}

proof fn lemma_entry_valid(ind: Seq<u8>, k: Seq<u8>, r: Seq<u8>)
    requires
        valid_utf8(ind),
        valid_utf8(k),
        valid_utf8(r),
    ensures
        valid_utf8(entry_text(ind, k, r)),
{
    let q = seq![QUOTE];
    let c = seq![QUOTE, COLON, SPACE];
    assert(all_ascii(q) && all_ascii(c));
    lemma_ascii_valid(q);
    lemma_ascii_valid(c);
    lemma_concat3(ind, q, k);
    lemma_concat3(ind + q + k, c, r);
}

proof fn lemma_space_char_valid(d: Seq<u8>, x: int)
    requires
        space_width(d, x) > 0,
    ensures
        valid_utf8(d.subrange(x, x + space_width(d, x))),
{
    let w = space_width(d, x);
    let t = d.subrange(x, x + w);
    if w == 1 {
        assert(all_ascii(t));
        lemma_ascii_valid(t);
    } else if w == 2 {
        let b1 = t[0];
        let b2 = t[1];
        assert(b1 == 0xc2u8 && 0x80u8 <= b2 && b2 <= 0xbfu8);
        assert(0x80u32 <= codepoint_width_2(b1, b2) && codepoint_width_2(b1, b2) <= 0x7ffu32)
            by (bit_vector)
            requires
                b1 == 0xc2u8 && 0x80u8 <= b2 && b2 <= 0xbfu8,
        ;
        reveal_with_fuel(valid_utf8, 2);
        assert(valid_first_scalar(t));
        assert(pop_first_scalar(t) =~= Seq::<u8>::empty());
    } else {
        let b1 = t[0];
        let b2 = t[1];
        let b3 = t[2];
        assert(0xe1u8 <= b1 && b1 <= 0xe3u8 && 0x80u8 <= b2 && b2 <= 0xbfu8 && 0x80u8 <= b3 && b3
            <= 0xbfu8);
        assert(0x1000u32 <= codepoint_width_3(b1, b2, b3) && codepoint_width_3(b1, b2, b3)
            <= 0x3fffu32) by (bit_vector)
            requires
                0xe1u8 <= b1 && b1 <= 0xe3u8 && 0x80u8 <= b2 && b2 <= 0xbfu8 && 0x80u8 <= b3 && b3
                    <= 0xbfu8,
        ;
        reveal_with_fuel(valid_utf8, 2);
        assert(valid_first_scalar(t));
        assert(pop_first_scalar(t) =~= Seq::<u8>::empty());
    }
}

proof fn lemma_space_run_valid(d: Seq<u8>, x: int)
    requires
        0 <= x <= d.len(),
    ensures
        valid_utf8(d.subrange(x, skip_space(d, x))),
    decreases d.len() - x,
{
    let w = space_width(d, x);
    if w > 0 {
        lemma_space_char_valid(d, x);
        lemma_space_run_valid(d, x + w);
        lemma_skip_space(d, x + w);
        valid_utf8_concat(d.subrange(x, x + w), d.subrange(x + w, skip_space(d, x)));
        assert(d.subrange(x, x + w) + d.subrange(x + w, skip_space(d, x)) =~= d.subrange(
            x,
            skip_space(d, x),
        ));
    } else {
        assert(d.subrange(x, x) =~= Seq::<u8>::empty());
    }
}

/// The indent unit is valid UTF-8.
pub proof fn lemma_indent_valid(d: Seq<u8>)
    ensures
        valid_utf8(indent_of(d)),
{
    lemma_first_indented(d, 0);
    if let Some(l) = first_indented_from(d, 0) {
        lemma_space_run_valid(d, l);
    } else {
        lemma_literals_ascii();
        lemma_ascii_valid(default_indent());
    }
}

/// Setting the key keeps a valid UTF-8 document valid, when the key and the
/// pairs are valid UTF-8.
pub proof fn lemma_synced_valid(d: Seq<u8>, k: Seq<u8>, ps: Seq<(Seq<u8>, Seq<u8>)>)
    requires
        valid_utf8(d),
        valid_utf8(k),
        forall|i: int| 0 <= i < ps.len() ==> valid_utf8(#[trigger] ps[i].0) && valid_utf8(ps[i].1),
    ensures
        synced(d, k, ps) matches Ok(e) ==> valid_utf8(e),
{
    let ind = indent_of(d);
    lemma_indent_valid(d);
    lemma_render_valid(ps, ind);
    let r = render_value(ps, ind);
    lemma_first_key(d, k);
    match first_key(d, k) {
        Some(ks) => {
            let vs = value_start(d, k, ks);
            if let Some(ve) = value_end(d, vs) {
                lemma_value_end_bounds(d, vs);
                let c = skip_ws(d, key_name_end(k, ks));
                lemma_skip_ws(d, c + 1);
                assert(d[vs - 1] < 0x80u8);
                lemma_cut_valid(d, vs);
                lemma_value_end_at_ascii(d, vs);
                lemma_cut_valid(d, ve);
                lemma_concat3(d.subrange(0, vs), r, d.subrange(ve, d.len() as int));
            }
        },
        None => {
            let ent = entry_text(ind, k, r);
            lemma_entry_valid(ind, k, r);
            let nl = seq![NEWLINE];
            assert(all_ascii(nl));
            lemma_ascii_valid(nl);
            match last_brace(d) {
                Some(lb) => {
                    lemma_last_brace(d, d.len() as int);
                    lemma_back_ws(d, lb);
                    let p = back_ws(d, lb);
                    assert(d[p] < 0x80u8);
                    lemma_cut_valid(d, p);
                    lemma_cut_valid(d, lb);
                    let cm: Seq<u8> = if !(p > 0 && (d[p - 1] == OPEN_BRACE || d[p - 1] == COMMA)) {
                        seq![COMMA]
                    } else {
                        seq![]
                    };
                    assert(all_ascii(cm));
                    lemma_ascii_valid(cm);
                    lemma_concat3(d.subrange(0, p), cm, nl);
                    lemma_concat3(d.subrange(0, p) + cm + nl, ent, nl);
                    valid_utf8_concat(
                        d.subrange(0, p) + cm + nl + ent + nl,
                        d.subrange(lb, d.len() as int),
                    );
                    assert(inserted(d, lb, ent) =~= d.subrange(0, p) + cm + nl + ent + nl
                        + d.subrange(lb, d.len() as int));
                },
                None => {
                    let h = seq![OPEN_BRACE, NEWLINE];
                    let t = seq![NEWLINE, CLOSE_BRACE, NEWLINE];
                    assert(all_ascii(h) && all_ascii(t));
                    lemma_ascii_valid(h);
                    lemma_ascii_valid(t);
                    lemma_concat3(h, ent, t);
                },
            }
        },
    }
}

/// Removing the key keeps a valid UTF-8 document valid.
pub proof fn lemma_cleared_valid(d: Seq<u8>, k: Seq<u8>)
    requires
        valid_utf8(d),
    ensures
        cleared(d, k) matches Ok(e) ==> valid_utf8(e),
{
    lemma_first_key(d, k);
    if let Some(ks) = first_key(d, k) {
        let vs = value_start(d, k, ks);
        if let Some(ve) = value_end(d, vs) {
            lemma_value_end_bounds(d, vs);
            let rs = back_blank(d, ks);
            lemma_back_blank(d, ks);
            lemma_back_ws(d, rs);
            let a = removal_start(d, ks, ve);
            assert(d[a] < 0x80u8);
            lemma_cut_valid(d, a);
            lemma_skip_blank(d, ve);
            let b = removal_end(d, ve);
            lemma_value_end_at_ascii(d, vs);
            assert(b == ve || d[b - 1] < 0x80u8);
            lemma_cut_valid(d, b);
            valid_utf8_concat(d.subrange(0, a), d.subrange(b, d.len() as int));
        }
    }
}

} // verus!
