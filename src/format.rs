use vstd::prelude::*;
use vstd::utf8::encode_utf8;

use crate::text::{
    lemma_skip_space, lemma_skip_space_copy, skip_space, skip_spaces, space_byte,
    BACKSLASH, CLOSE_BRACE, CLOSE_BRACKET, COLON, COMMA, CR, NEWLINE, OPEN_BRACE, OPEN_BRACKET,
    QUOTE, SPACE, TAB, is_blank, lemma_skip_blank, push_range, skip_blank, skip_blanks,
};

verus! {

/// `i` is the first byte of a line.
pub open spec fn is_line_start(d: Seq<u8>, i: int) -> bool {
    i == 0 || (0 < i <= d.len() && d[i - 1] == NEWLINE)
}

/// The line at `i` starts with whitespace and has more than whitespace.
pub open spec fn indented_line_at(d: Seq<u8>, i: int) -> bool {
    &&& is_line_start(d, i)
    &&& skip_space(d, i) > i
    &&& skip_space(d, i) < d.len()
    &&& d[skip_space(d, i)] != NEWLINE
}

/// Four spaces.
pub open spec fn default_indent() -> Seq<u8> {
    seq![SPACE, SPACE, SPACE, SPACE]
}

/// The leading whitespace of the first indented line at or after `i`, or the default.
pub open spec fn indent_from(d: Seq<u8>, i: int) -> Seq<u8>
    decreases d.len() - i,
{
    if i < 0 || i >= d.len() {
        default_indent()
    } else if indented_line_at(d, i) {
        d.subrange(i, skip_space(d, i))
    } else {
        indent_from(d, i + 1)
    }
}

/// The indent unit of a document: the leading whitespace of its first line
/// that has both leading whitespace and content, or four spaces when no line
/// has.
pub open spec fn indent_of(d: Seq<u8>) -> Seq<u8> {
    indent_from(d, 0)
}

/// Lowercase hexadecimal digit of `n < 16`.
pub open spec fn hex_digit(n: u8) -> u8 {
    if n < 10 {
        (0x30u8 + n) as u8
    } else {
        (0x57u8 + n) as u8
    }
}

/// The JSON string escape of one byte. Bytes of multi-byte characters
/// are kept as they are.
pub open spec fn escape_byte(b: u8) -> Seq<u8> {
    if b == QUOTE {
        seq![BACKSLASH, QUOTE]
    } else if b == BACKSLASH {
        seq![BACKSLASH, BACKSLASH]
    } else if b == NEWLINE {
        seq![BACKSLASH, 0x6eu8]
    } else if b == CR {
        seq![BACKSLASH, 0x72u8]
    } else if b == TAB {
        seq![BACKSLASH, 0x74u8]
    } else if b == 0x08u8 {
        seq![BACKSLASH, 0x62u8]
    } else if b == 0x0cu8 {
        seq![BACKSLASH, 0x66u8]
    } else if b < SPACE {
        seq![BACKSLASH, 0x75u8, 0x30u8, 0x30u8, hex_digit(b / 16), hex_digit(b % 16)]
    } else {
        seq![b]
    }
}

/// The JSON string escape of `s`, byte by byte.
pub open spec fn escape(s: Seq<u8>) -> Seq<u8>
    decreases s.len(),
{
    if s.len() == 0 {
        seq![]
    } else {
        escape(s.drop_last()) + escape_byte(s.last())
    }
}

/// The bytes of a name/value pair of strings.
pub open spec fn pair_bytes(p: (String, String)) -> (Seq<u8>, Seq<u8>) {
    (encode_utf8(p.0@), encode_utf8(p.1@))
}


/// `{"name": "`
pub open spec fn name_open() -> Seq<u8> {
    seq![OPEN_BRACE, QUOTE, 0x6eu8, 0x61u8, 0x6du8, 0x65u8, QUOTE, COLON, SPACE, QUOTE]
}

/// `", "value": "`
pub open spec fn value_open() -> Seq<u8> {
    seq![
        QUOTE,
        COMMA,
        SPACE,
        QUOTE,
        0x76u8,
        0x61u8,
        0x6cu8,
        0x75u8,
        0x65u8,
        QUOTE,
        COLON,
        SPACE,
        QUOTE,
    ]
}

/// `"}`
pub open spec fn pair_close() -> Seq<u8> {
    seq![QUOTE, CLOSE_BRACE]
}

/// One element of the array, on a line of its own after `inner`.
pub open spec fn render_pair(p: (Seq<u8>, Seq<u8>), inner: Seq<u8>) -> Seq<u8> {
    inner + name_open() + escape(p.0) + value_open() + escape(p.1) + pair_close()
}

/// The elements, separated by a comma and a line break.
pub open spec fn render_items(ps: Seq<(Seq<u8>, Seq<u8>)>, inner: Seq<u8>) -> Seq<u8>
    decreases ps.len(),
{
    if ps.len() == 0 {
        seq![]
    } else if ps.len() == 1 {
        render_pair(ps[0], inner)
    } else {
        render_items(ps.drop_last(), inner) + seq![COMMA, NEWLINE] + render_pair(ps.last(), inner)
    }
}

/// The array of `{"name", "value"}` objects for the pairs `ps`: `[]` when
/// empty, else one element per line one level deeper than `indent`, and the
/// closing bracket on a line of its own at `indent`.
pub open spec fn render_value(ps: Seq<(Seq<u8>, Seq<u8>)>, indent: Seq<u8>) -> Seq<u8> {
    if ps.len() == 0 {
        seq![OPEN_BRACKET, CLOSE_BRACKET]
    } else {
        seq![OPEN_BRACKET, NEWLINE] + render_items(ps, indent + default_indent()) + seq![NEWLINE]
            + indent + seq![CLOSE_BRACKET]
    }
}

/// Detects the indent unit of a document (see `indent_of`).
pub fn detect_indent(d: &[u8]) -> (r: Vec<u8>)
    ensures
        r@ == indent_of(d@),
{
    let mut i: usize = 0;
    while i < d.len()
        invariant
            i <= d@.len(),
            indent_of(d@) == indent_from(d@, i as int),
        decreases d@.len() - i,
    {
        if i == 0 || d[i - 1] == NEWLINE {
            let e = skip_spaces(d, i);
            if e > i && e < d.len() && d[e] != NEWLINE {
                let mut r: Vec<u8> = Vec::new();
                push_range(&mut r, d, i, e);
                assert(r@ =~= d@.subrange(i as int, e as int));
                return r;
            }
        }
        i = i + 1;
    }
    let r: Vec<u8> = vec![SPACE, SPACE, SPACE, SPACE];
    assert(r@ =~= default_indent());
    r
}

fn hex_digit_of(n: u8) -> (r: u8)
    requires
        n < 16,
    ensures
        r == hex_digit(n),
{
    if n < 10 {
        0x30u8 + n
    } else {
        0x57u8 + n
    }
}

fn push_escaped_byte(out: &mut Vec<u8>, b: u8)
    ensures
        final(out)@ == old(out)@ + escape_byte(b),
{
    if b == QUOTE || b == BACKSLASH {
        out.push(BACKSLASH);
        out.push(b);
    } else if b == NEWLINE {
        out.push(BACKSLASH);
        out.push(0x6eu8);
    } else if b == CR {
        out.push(BACKSLASH);
        out.push(0x72u8);
    } else if b == TAB {
        out.push(BACKSLASH);
        out.push(0x74u8);
    } else if b == 0x08u8 {
        out.push(BACKSLASH);
        out.push(0x62u8);
    } else if b == 0x0cu8 {
        out.push(BACKSLASH);
        out.push(0x66u8);
    } else if b < SPACE {
        out.push(BACKSLASH);
        out.push(0x75u8);
        out.push(0x30u8);
        out.push(0x30u8);
        out.push(hex_digit_of(b / 16));
        out.push(hex_digit_of(b % 16));
    } else {
        out.push(b);
    }
    assert(final(out)@ =~= old(out)@ + escape_byte(b));
}

/// Appends the JSON string escape of `s`.
fn push_escaped(out: &mut Vec<u8>, s: &[u8])
    ensures
        final(out)@ == old(out)@ + escape(s@),
{
    let mut i: usize = 0;
    while i < s.len()
        invariant
            i <= s@.len(),
            out@ == old(out)@ + escape(s@.subrange(0, i as int)),
        decreases s@.len() - i,
    {
        proof {
            assert(s@.subrange(0, i + 1).drop_last() =~= s@.subrange(0, i as int));
        }
        push_escaped_byte(out, s[i]);
        assert(out@ =~= old(out)@ + escape(s@.subrange(0, i + 1)));
        i = i + 1;
    }
    assert(s@.subrange(0, s@.len() as int) =~= s@);
}

fn push_bytes(out: &mut Vec<u8>, s: &[u8])
    ensures
        final(out)@ == old(out)@ + s@,
{
    push_range(out, s, 0, s.len());
    assert(s@.subrange(0, s@.len() as int) =~= s@);
}

fn push_pair(out: &mut Vec<u8>, name: &String, value: &String, inner: &[u8])
    ensures
        final(out)@ == old(out)@ + render_pair(
            (encode_utf8(name@), encode_utf8(value@)),
            inner@,
        ),
{
    push_bytes(out, inner);
    out.push(OPEN_BRACE);
    out.push(QUOTE);
    out.push(0x6eu8);
    out.push(0x61u8);
    out.push(0x6du8);
    out.push(0x65u8);
    out.push(QUOTE);
    out.push(COLON);
    out.push(SPACE);
    out.push(QUOTE);
    let ghost mid1 = out@;
    push_escaped(out, name.as_str().as_bytes());
    let ghost mid2 = out@;
    out.push(QUOTE);
    out.push(COMMA);
    out.push(SPACE);
    out.push(QUOTE);
    out.push(0x76u8);
    out.push(0x61u8);
    out.push(0x6cu8);
    out.push(0x75u8);
    out.push(0x65u8);
    out.push(QUOTE);
    out.push(COLON);
    out.push(SPACE);
    out.push(QUOTE);
    let ghost mid3 = out@;
    push_escaped(out, value.as_str().as_bytes());
    out.push(QUOTE);
    out.push(CLOSE_BRACE);
    proof {
        assert(mid1 =~= old(out)@ + inner@ + name_open());
        assert(mid3 =~= mid2 + value_open());
    }
    assert(final(out)@ =~= old(out)@ + render_pair(
        (encode_utf8(name@), encode_utf8(value@)),
        inner@,
    ));
}

/// Renders the pairs as the array value (see `render_value`).
pub fn format_value(pairs: &[(String, String)], indent: &[u8]) -> (r: Vec<u8>)
    ensures
        r@ == render_value(pairs@.map_values(|p: (String, String)| pair_bytes(p)), indent@),
{
    let ghost ps = pairs@.map_values(|p: (String, String)| pair_bytes(p));
    let mut out: Vec<u8> = Vec::new();
    if pairs.len() == 0 {
        out.push(OPEN_BRACKET);
        out.push(CLOSE_BRACKET);
        assert(out@ =~= seq![OPEN_BRACKET, CLOSE_BRACKET]);
        return out;
    }
    let mut inner: Vec<u8> = Vec::new();
    push_bytes(&mut inner, indent);
    push_bytes(&mut inner, &[SPACE, SPACE, SPACE, SPACE]);
    assert(inner@ =~= indent@ + default_indent());
    out.push(OPEN_BRACKET);
    out.push(NEWLINE);
    let ghost head = out@;
    let mut i: usize = 0;
    while i < pairs.len()
        invariant
            i <= pairs@.len(),
            ps == pairs@.map_values(|p: (String, String)| pair_bytes(p)),
            inner@ == indent@ + default_indent(),
            head == seq![OPEN_BRACKET, NEWLINE],
            out@ == head + render_items(ps.subrange(0, i as int), inner@),
        decreases pairs@.len() - i,
    {
        if i > 0 {
            out.push(COMMA);
            out.push(NEWLINE);
        }
        push_pair(&mut out, &pairs[i].0, &pairs[i].1, inner.as_slice());
        proof {
            let sub = ps.subrange(0, i + 1);
            assert(sub.drop_last() =~= ps.subrange(0, i as int));
            assert(sub.last() == pair_bytes(pairs@[i as int]));
            if i == 0 {
                assert(ps.subrange(0, 0) =~= Seq::<(Seq<u8>, Seq<u8>)>::empty());
            }
        }
        assert(out@ =~= head + render_items(ps.subrange(0, i + 1), inner@));
        i = i + 1;
    }
    assert(ps.subrange(0, pairs@.len() as int) =~= ps);
    out.push(NEWLINE);
    push_bytes(&mut out, indent);
    out.push(CLOSE_BRACKET);
    assert(out@ =~= render_value(ps, indent@));
    out
}


/// The first indented line at or after `i`.
pub open spec fn first_indented_from(d: Seq<u8>, i: int) -> Option<int>
    decreases d.len() - i,
{
    if i < 0 || i >= d.len() {
        None
    } else if indented_line_at(d, i) {
        Some(i)
    } else {
        first_indented_from(d, i + 1)
    }
}

/// The indent found from `i` is that of the first indented line from `i`.
pub proof fn lemma_first_indented(d: Seq<u8>, i: int)
    requires
        0 <= i,
    ensures
        first_indented_from(d, i) matches Some(l) ==> {
            &&& i <= l < d.len()
            &&& indented_line_at(d, l)
            &&& forall|m: int| i <= m < l ==> !indented_line_at(d, m)
            &&& indent_from(d, i) == d.subrange(l, skip_space(d, l))
        },
        first_indented_from(d, i) is None ==> indent_from(d, i) == default_indent() && forall|
            m: int,
        | i <= m < d.len() ==> !indented_line_at(d, m),
    decreases d.len() - i,
{
    if i < d.len() && !indented_line_at(d, i) {
        lemma_first_indented(d, i + 1);
    }
}

/// Lines that are not indented do not count.
pub proof fn lemma_indent_skip(d: Seq<u8>, i: int, j: int)
    requires
        0 <= i <= j <= d.len(),
        forall|m: int| i <= m < j ==> !indented_line_at(d, m),
    ensures
        indent_from(d, i) == indent_from(d, j),
    decreases j - i,
{
    if i < j {
        lemma_indent_skip(d, i + 1, j);
    }
}

/// The indent unit is a non-empty run of whitespace characters.
pub proof fn lemma_indent_is_space(d: Seq<u8>)
    ensures
        indent_of(d).len() > 0,
        forall|i: int| 0 <= i < indent_of(d).len() ==> space_byte(#[trigger] indent_of(d)[i]),
        skip_space(indent_of(d), 0) == indent_of(d).len(),
{
    lemma_first_indented(d, 0);
    if let Some(l) = first_indented_from(d, 0) {
        lemma_skip_space(d, l);
        let ind = d.subrange(l, skip_space(d, l));
        assert forall|t: int| 0 <= t < skip_space(d, l) - l implies ind[0 + t] == #[trigger] d[l
            + t] by {}
        lemma_skip_space_copy(d, l, ind, 0);
    } else {
        reveal_with_fuel(skip_space, 5);
    }
}

} // verus!
