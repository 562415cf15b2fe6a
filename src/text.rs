use vstd::prelude::*;

verus! {

pub const QUOTE: u8 = 0x22;
pub const BACKSLASH: u8 = 0x5c;
pub const SLASH: u8 = 0x2f;
pub const STAR: u8 = 0x2a;
pub const OPEN_BRACKET: u8 = 0x5b;
pub const CLOSE_BRACKET: u8 = 0x5d;
pub const OPEN_BRACE: u8 = 0x7b;
pub const CLOSE_BRACE: u8 = 0x7d;
pub const COMMA: u8 = 0x2c;
pub const COLON: u8 = 0x3a;
pub const NEWLINE: u8 = 0x0a;
pub const CR: u8 = 0x0d;
pub const TAB: u8 = 0x09;
pub const SPACE: u8 = 0x20;
pub const VT: u8 = 0x0b;
pub const FF: u8 = 0x0c;

/// ASCII whitespace: space, tab, line feed, vertical tab, form feed,
/// carriage return.
pub open spec fn is_ws(b: u8) -> bool {
    b == SPACE || b == TAB || b == NEWLINE || b == CR || b == VT || b == FF
}

/// ASCII whitespace that does not end a line.
pub open spec fn is_blank(b: u8) -> bool {
    b == SPACE || b == TAB || b == CR || b == VT || b == FF
}

/// Length in bytes of the whitespace character, other than a line feed,
/// that starts at `i`, or 0: the ASCII blanks, U+0085, U+00A0, U+1680,
/// U+2000 to U+200A, U+2028, U+2029, U+202F, U+205F and U+3000 (the Unicode
/// `White_Space` characters).
pub open spec fn space_width(d: Seq<u8>, i: int) -> int {
    if i < 0 || i >= d.len() {
        0
    } else if is_blank(d[i]) {
        1
    } else if d[i] == 0xc2u8 && i + 1 < d.len() && (d[i + 1] == 0x85u8 || d[i + 1] == 0xa0u8) {
        2
    } else if i + 2 < d.len() && ((d[i] == 0xe1u8 && d[i + 1] == 0x9au8 && d[i + 2] == 0x80u8)
        || (d[i] == 0xe2u8 && d[i + 1] == 0x80u8 && ((0x80u8 <= d[i + 2] && d[i + 2] <= 0x8au8)
        || d[i + 2] == 0xa8u8 || d[i + 2] == 0xa9u8 || d[i + 2] == 0xafu8)) || (d[i] == 0xe2u8
        && d[i + 1] == 0x81u8 && d[i + 2] == 0x9fu8) || (d[i] == 0xe3u8 && d[i + 1] == 0x80u8
        && d[i + 2] == 0x80u8)) {
        3
    } else {
        0
    }
}

/// First index at or after `i` that does not start a whitespace character
/// other than a line feed (or the end).
pub open spec fn skip_space(d: Seq<u8>, i: int) -> int
    decreases d.len() - i,
{
    if space_width(d, i) > 0 {
        skip_space(d, i + space_width(d, i))
    } else {
        i
    }
}

/// A byte that can be part of a whitespace character other than a line feed.
pub open spec fn space_byte(b: u8) -> bool {
    is_blank(b) || b >= 0x80u8
}

/// First index at or after `i` that is not whitespace (or the end).
pub open spec fn skip_ws(d: Seq<u8>, i: int) -> int
    decreases d.len() - i,
{
    if 0 <= i < d.len() && is_ws(d[i]) {
        skip_ws(d, i + 1)
    } else {
        i
    }
}

/// First index at or after `i` that is not blank (or the end).
pub open spec fn skip_blank(d: Seq<u8>, i: int) -> int
    decreases d.len() - i,
{
    if 0 <= i < d.len() && is_blank(d[i]) {
        skip_blank(d, i + 1)
    } else {
        i
    }
}

/// Start of the run of whitespace that ends at `i`.
pub open spec fn back_ws(d: Seq<u8>, i: int) -> int
    decreases i,
{
    if 0 < i <= d.len() && is_ws(d[i - 1]) {
        back_ws(d, i - 1)
    } else {
        i
    }
}

/// Start of the run of blanks that ends at `i`.
pub open spec fn back_blank(d: Seq<u8>, i: int) -> int
    decreases i,
{
    if 0 < i <= d.len() && is_blank(d[i - 1]) {
        back_blank(d, i - 1)
    } else {
        i
    }
}

/// Whether `b` is JSON whitespace.
pub fn is_ws_byte(b: u8) -> (r: bool)
    ensures
        r == is_ws(b),
{
    b == SPACE || b == TAB || b == NEWLINE || b == CR || b == VT || b == FF
}

/// Whether `b` is whitespace that does not end a line.
pub fn is_blank_byte(b: u8) -> (r: bool)
    ensures
        r == is_blank(b),
{
    b == SPACE || b == TAB || b == CR || b == VT || b == FF
}

/// Index of the first non-whitespace byte at or after `i`.
pub fn skip_whitespace(d: &[u8], i: usize) -> (r: usize)
    requires
        i <= d@.len(),
    ensures
        r as int == skip_ws(d@, i as int),
{
    let mut j: usize = i;
    while j < d.len() && is_ws_byte(d[j])
        invariant
            i <= j <= d@.len(),
            skip_ws(d@, j as int) == skip_ws(d@, i as int),
        decreases d.len() - j,
    {
        j = j + 1;
    }
    j
}

/// The width of the whitespace character at `i` (see `space_width`).
pub fn space_width_at(d: &[u8], i: usize) -> (w: usize)
    ensures
        w as int == space_width(d@, i as int),
        w > 0 ==> i + w <= d@.len(),
{
    if i >= d.len() {
        return 0;
    }
    let b = d[i];
    if is_blank_byte(b) {
        return 1;
    }
    if b == 0xc2u8 && d.len() - i > 1 && (d[i + 1] == 0x85u8 || d[i + 1] == 0xa0u8) {
        return 2;
    }
    if d.len() - i > 2 {
        let b1 = d[i + 1];
        let b2 = d[i + 2];
        if (b == 0xe1u8 && b1 == 0x9au8 && b2 == 0x80u8) || (b == 0xe2u8 && b1 == 0x80u8 && ((
        0x80u8 <= b2 && b2 <= 0x8au8) || b2 == 0xa8u8 || b2 == 0xa9u8 || b2 == 0xafu8)) || (b
            == 0xe2u8 && b1 == 0x81u8 && b2 == 0x9fu8) || (b == 0xe3u8 && b1 == 0x80u8 && b2
            == 0x80u8) {
            return 3;
        }
    }
    0
}

/// Index of the first byte at or after `i` that does not start a whitespace
/// character other than a line feed.
pub fn skip_spaces(d: &[u8], i: usize) -> (r: usize)
    requires
        i <= d@.len(),
    ensures
        r as int == skip_space(d@, i as int),
{
    let mut j: usize = i;
    loop
        invariant
            i <= j <= d@.len(),
            d@.len() == d.len(),
            skip_space(d@, j as int) == skip_space(d@, i as int),
        decreases d@.len() - j,
    {
        let w = space_width_at(d, j);
        if w == 0 {
            return j;
        }
        j = j + w;
    }
}

/// Index of the first non-blank byte at or after `i`.
pub fn skip_blanks(d: &[u8], i: usize) -> (r: usize)
    requires
        i <= d@.len(),
    ensures
        r as int == skip_blank(d@, i as int),
{
    let mut j: usize = i;
    while j < d.len() && is_blank_byte(d[j])
        invariant
            i <= j <= d@.len(),
            skip_blank(d@, j as int) == skip_blank(d@, i as int),
        decreases d.len() - j,
    {
        j = j + 1;
    }
    j
}

/// Start of the whitespace run that ends at `i`.
pub fn back_whitespace(d: &[u8], i: usize) -> (r: usize)
    requires
        i <= d@.len(),
    ensures
        r as int == back_ws(d@, i as int),
{
    let mut j: usize = i;
    while j > 0 && is_ws_byte(d[j - 1])
        invariant
            j <= i <= d@.len(),
            back_ws(d@, j as int) == back_ws(d@, i as int),
        decreases j,
    {
        j = j - 1;
    }
    j
}

/// Start of the blank run that ends at `i`.
pub fn back_blanks(d: &[u8], i: usize) -> (r: usize)
    requires
        i <= d@.len(),
    ensures
        r as int == back_blank(d@, i as int),
{
    let mut j: usize = i;
    while j > 0 && is_blank_byte(d[j - 1])
        invariant
            j <= i <= d@.len(),
            back_blank(d@, j as int) == back_blank(d@, i as int),
        decreases j,
    {
        j = j - 1;
    }
    j
}

/// Appends `d[from..to]` to `out`.
pub fn push_range(out: &mut Vec<u8>, d: &[u8], from: usize, to: usize)
    requires
        from <= to <= d@.len(),
    ensures
        final(out)@ == old(out)@ + d@.subrange(from as int, to as int),
{
    let mut i: usize = from;
    while i < to
        invariant
            from <= i <= to <= d@.len(),
            out@ == old(out)@ + d@.subrange(from as int, i as int),
        decreases to - i,
    {
        out.push(d[i]);
        assert(d@.subrange(from as int, i + 1) =~= d@.subrange(from as int, i as int).push(d@[i as int]));
        i = i + 1;
    }
}


/// Skipping whitespace stays in bounds, passes only whitespace and stops at
/// a byte that is not whitespace.
pub proof fn lemma_skip_ws(d: Seq<u8>, i: int)
    requires
        0 <= i <= d.len(),
    ensures
        i <= skip_ws(d, i) <= d.len(),
        forall|m: int| i <= m < skip_ws(d, i) ==> is_ws(#[trigger] d[m]),
        skip_ws(d, i) < d.len() ==> !is_ws(d[skip_ws(d, i)]),
    decreases d.len() - i,
{
    if i < d.len() && is_ws(d[i]) {
        lemma_skip_ws(d, i + 1);
    }
}

/// Skipping blanks stays in bounds, passes only blanks and stops at a byte
/// that is not blank.
pub proof fn lemma_skip_blank(d: Seq<u8>, i: int)
    requires
        0 <= i <= d.len(),
    ensures
        i <= skip_blank(d, i) <= d.len(),
        forall|m: int| i <= m < skip_blank(d, i) ==> is_blank(#[trigger] d[m]),
        skip_blank(d, i) < d.len() ==> !is_blank(d[skip_blank(d, i)]),
    decreases d.len() - i,
{
    if i < d.len() && is_blank(d[i]) {
        lemma_skip_blank(d, i + 1);
    }
}

/// Going back over whitespace stays in bounds, passes only whitespace and
/// stops after a byte that is not whitespace.
pub proof fn lemma_back_ws(d: Seq<u8>, i: int)
    requires
        0 <= i <= d.len(),
    ensures
        0 <= back_ws(d, i) <= i,
        forall|m: int| back_ws(d, i) <= m < i ==> is_ws(#[trigger] d[m]),
        back_ws(d, i) > 0 ==> !is_ws(d[back_ws(d, i) - 1]),
    decreases i,
{
    if i > 0 && is_ws(d[i - 1]) {
        lemma_back_ws(d, i - 1);
    }
}

/// Going back over blanks stays in bounds, passes only blanks and stops
/// after a byte that is not blank.
pub proof fn lemma_back_blank(d: Seq<u8>, i: int)
    requires
        0 <= i <= d.len(),
    ensures
        0 <= back_blank(d, i) <= i,
        forall|m: int| back_blank(d, i) <= m < i ==> is_blank(#[trigger] d[m]),
        back_blank(d, i) > 0 ==> !is_blank(d[back_blank(d, i) - 1]),
    decreases i,
{
    if i > 0 && is_blank(d[i - 1]) {
        lemma_back_blank(d, i - 1);
    }
}


/// Skipping whitespace characters stays in bounds, passes only bytes that can
/// be part of them, and stops where none starts.
pub proof fn lemma_skip_space(d: Seq<u8>, i: int)
    requires
        0 <= i <= d.len(),
    ensures
        i <= skip_space(d, i) <= d.len(),
        forall|m: int| i <= m < skip_space(d, i) ==> space_byte(#[trigger] d[m]),
        space_width(d, skip_space(d, i)) == 0,
    decreases d.len() - i,
{
    if space_width(d, i) > 0 {
        lemma_skip_space(d, i + space_width(d, i));
    }
}

/// Skipping whitespace characters stops at an ASCII byte that is not blank.
pub proof fn lemma_skip_space_stops(d: Seq<u8>, x: int, y: int)
    requires
        0 <= x <= y < d.len(),
        d[y] < 0x80u8,
        !is_blank(d[y]),
    ensures
        skip_space(d, x) <= y,
    decreases y - x,
{
    if space_width(d, x) > 0 && x < y {
        assert(x + space_width(d, x) <= y);
        lemma_skip_space_stops(d, x + space_width(d, x), y);
    }
}

/// Skipping whitespace characters stops where none starts, if it reaches
/// there after an ASCII byte.
pub proof fn lemma_skip_space_before(d: Seq<u8>, x: int, y: int)
    requires
        0 <= x <= y <= d.len(),
        space_width(d, y) == 0,
        x == y || d[y - 1] < 0x80u8,
    ensures
        skip_space(d, x) <= y,
    decreases y - x,
{
    if space_width(d, x) > 0 && x < y {
        assert(x + space_width(d, x) <= y);
        lemma_skip_space_before(d, x + space_width(d, x), y);
    }
}

/// A run of whitespace characters copied elsewhere is skipped alike, when
/// no whitespace character starts right after the copy.
pub proof fn lemma_skip_space_copy(d: Seq<u8>, x: int, e: Seq<u8>, y: int)
    requires
        0 <= x <= d.len(),
        0 <= y,
        y + (skip_space(d, x) - x) <= e.len(),
        forall|t: int| 0 <= t < skip_space(d, x) - x ==> e[y + t] == #[trigger] d[x + t],
        space_width(e, y + (skip_space(d, x) - x)) == 0,
    ensures
        skip_space(e, y) == y + (skip_space(d, x) - x),
    decreases d.len() - x,
{
    let w = space_width(d, x);
    if w > 0 {
        lemma_skip_space(d, x + w);
        assert(e[y] == d[x + 0]);
        if w >= 2 {
            assert(e[y + 1] == d[x + 1]);
        }
        if w == 3 {
            assert(e[y + 2] == d[x + 2]);
        }
        assert(space_width(e, y) == w);
        assert forall|t: int| 0 <= t < skip_space(d, x + w) - (x + w) implies e[(y + w) + t]
            == #[trigger] d[(x + w) + t] by {
            assert(e[y + (w + t)] == d[x + (w + t)]);
        }
        lemma_skip_space_copy(d, x + w, e, y + w);
    }
}

/// Skipping whitespace from anywhere in a run of it ends at the same place.
pub proof fn lemma_skip_ws_same_run(d: Seq<u8>, x: int, y: int)
    requires
        0 <= x <= y <= d.len(),
        forall|m: int| x <= m < y ==> is_ws(#[trigger] d[m]),
    ensures
        skip_ws(d, x) == skip_ws(d, y),
    decreases y - x,
{
    if x < y {
        lemma_skip_ws_same_run(d, x + 1, y);
    }
}

/// Skipping whitespace stops at the first byte that is not whitespace.
pub proof fn lemma_skip_ws_stops(d: Seq<u8>, x: int, y: int)
    requires
        0 <= x <= y < d.len(),
        !is_ws(d[y]),
    ensures
        skip_ws(d, x) <= y,
    decreases y - x,
{
    if x < y && is_ws(d[x]) {
        lemma_skip_ws_stops(d, x + 1, y);
    }
}

} // verus!
