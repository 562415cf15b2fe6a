use vstd::prelude::*;

use crate::text::{
    BACKSLASH, CLOSE_BRACE, CLOSE_BRACKET, COMMA, CR, NEWLINE, OPEN_BRACE, OPEN_BRACKET, QUOTE,
};

verus! {

/// State of the value scanner after some prefix of a value: bracket depth,
/// whether it stands inside a string, and whether the next byte is escaped.
pub struct ScanState {
    pub depth: int,
    pub in_str: bool,
    pub esc: bool,
}

/// Before the first byte: depth zero, outside any string.
pub open spec fn start_state() -> ScanState {
    ScanState { depth: 0, in_str: false, esc: false }
}

/// One byte of the scan over a value opened by `open` and closed by `close`.
/// Brackets of another kind, and any bracket inside a string, leave the depth alone.
pub open spec fn scan_step(s: ScanState, b: u8, open: u8, close: u8) -> ScanState {
    if s.esc {
        ScanState { esc: false, ..s }
    } else if s.in_str {
        if b == BACKSLASH {
            ScanState { esc: true, ..s }
        } else if b == QUOTE {
            ScanState { in_str: false, ..s }
        } else {
            s
        }
    } else if b == QUOTE {
        ScanState { in_str: true, ..s }
    } else if b == open {
        ScanState { depth: s.depth + 1, ..s }
    } else if b == close {
        ScanState { depth: s.depth - 1, ..s }
    } else {
        s
    }
}

/// The scanner's state after reading `d[start..j]`.
pub open spec fn scan_state(d: Seq<u8>, start: int, j: int, open: u8, close: u8) -> ScanState
    decreases j - start,
{
    if j <= start {
        start_state()
    } else {
        scan_step(scan_state(d, start, j - 1, open, close), d[j - 1], open, close)
    }
}

/// The value has been read in full: all brackets closed, no string open.
pub open spec fn settled(s: ScanState) -> bool {
    s.depth == 0 && !s.in_str && !s.esc
}

/// The first `j >= m` at which the scan from `start` is settled.
pub open spec fn first_settled(d: Seq<u8>, start: int, m: int, open: u8, close: u8) -> Option<int>
    decreases d.len() + 1 - m,
{
    if m > d.len() || m < 0 {
        None
    } else if settled(scan_state(d, start, m, open, close)) {
        Some(m)
    } else {
        first_settled(d, start, m + 1, open, close)
    }
}

/// Bytes that end a bare token (number, boolean, null).
pub open spec fn is_delim(b: u8) -> bool {
    b == COMMA || b == CLOSE_BRACE || b == CLOSE_BRACKET || b == NEWLINE || b == CR
}

/// The first `j >= m` that holds a delimiter, or the end.
pub open spec fn first_delim(d: Seq<u8>, m: int) -> int
    decreases d.len() - m,
{
    if m < 0 || m >= d.len() || is_delim(d[m]) {
        m
    } else {
        first_delim(d, m + 1)
    }
}

/// `[` or `{`.
pub open spec fn is_bracket(b: u8) -> bool {
    b == OPEN_BRACKET || b == OPEN_BRACE
}

/// The closing bracket of an opening one.
pub open spec fn closer_of(b: u8) -> u8 {
    if b == OPEN_BRACKET {
        CLOSE_BRACKET
    } else if b == OPEN_BRACE {
        CLOSE_BRACE
    } else {
        b
    }
}

/// The end of the bracketed value that opens at `start`.
pub open spec fn bracket_end(d: Seq<u8>, start: int) -> Option<int> {
    if 0 <= start < d.len() && is_bracket(d[start]) {
        first_settled(d, start, start + 1, d[start], closer_of(d[start]))
    } else {
        None
    }
}

/// The end of the JSON value whose first byte is at `start`: after the
/// matching bracket for an array or object, after the closing quote for a
/// string, and at the next delimiter (or the end) for any other token.
pub open spec fn value_end(d: Seq<u8>, start: int) -> Option<int> {
    if start < 0 || start >= d.len() {
        None
    } else if is_bracket(d[start]) {
        bracket_end(d, start)
    } else if d[start] == QUOTE {
        first_settled(d, start, start + 1, QUOTE, QUOTE)
    } else {
        Some(first_delim(d, start))
    }
}

/// Scans the value opened at `start` until it is settled.
fn scan_span(d: &[u8], start: usize, open: u8, close: u8) -> (r: Option<usize>)
    requires
        start < d@.len(),
        d@[start as int] == open,
        (open == QUOTE && close == QUOTE) || (open == OPEN_BRACKET && close == CLOSE_BRACKET) || (open
            == OPEN_BRACE && close == CLOSE_BRACE),
    ensures
        r matches Some(j) ==> first_settled(d@, start as int, start + 1, open, close) == Some(
            j as int,
        ),
        r is None ==> first_settled(d@, start as int, start + 1, open, close) is None,
{
    let ghost dv = d@;
    let mut depth: usize = 0;
    let mut in_str = false;
    let mut esc = false;
    let mut i: usize = start;
    while i < d.len()
        invariant
            start <= i <= dv.len(),
            dv == d@,
            d@[start as int] == open,
            (open == QUOTE && close == QUOTE) || (open == OPEN_BRACKET && close == CLOSE_BRACKET) || (open
                == OPEN_BRACE && close == CLOSE_BRACE),
            depth as int == scan_state(dv, start as int, i as int, open, close).depth,
            in_str == scan_state(dv, start as int, i as int, open, close).in_str,
            esc == scan_state(dv, start as int, i as int, open, close).esc,
            depth <= i - start,
            i > start ==> !settled(scan_state(dv, start as int, i as int, open, close)),
            first_settled(dv, start as int, start + 1, open, close) == first_settled(
                dv,
                start as int,
                i + 1,
                open,
                close,
            ) || i == start,
        decreases dv.len() - i,
    {
        let b = d[i];
        if esc {
            esc = false;
        } else if in_str {
            if b == BACKSLASH {
                esc = true;
            } else if b == QUOTE {
                in_str = false;
            }
        } else if b == QUOTE {
            in_str = true;
        } else if b == open {
            depth = depth + 1;
        } else if b == close {
            depth = depth - 1;
        }
        i = i + 1;
        if depth == 0 && !in_str && !esc {
            return Some(i);
        }
    }
    None
}

/// End of the bracketed value (array or object) that opens at `start`;
/// `None` when `start` is past the end, `d[start]` is no opening bracket, or
/// the value never closes.
pub fn find_bracket_end(d: &[u8], start: usize) -> (r: Option<usize>)
    ensures
        r matches Some(j) ==> bracket_end(d@, start as int) == Some(j as int),
        r is None ==> bracket_end(d@, start as int) is None,
{
    if start >= d.len() {
        return None;
    }
    let open = d[start];
    if open == OPEN_BRACKET {
        scan_span(d, start, open, CLOSE_BRACKET)
    } else if open == OPEN_BRACE {
        scan_span(d, start, open, CLOSE_BRACE)
    } else {
        None
    }
}

/// End of the JSON value whose first byte is at `start` (see `value_end`);
/// `None` when `start` is past the end or the value is not closed.
pub fn find_value_end(d: &[u8], start: usize) -> (r: Option<usize>)
    ensures
        r matches Some(j) ==> value_end(d@, start as int) == Some(j as int) && start <= j
            <= d@.len(),
        r is None ==> value_end(d@, start as int) is None,
{
    proof {
        lemma_value_end_bounds(d@, start as int);
    }
    if start >= d.len() {
        return None;
    }
    let b = d[start];
    if b == OPEN_BRACKET || b == OPEN_BRACE {
        find_bracket_end(d, start)
    } else if b == QUOTE {
        scan_span(d, start, b, b)
    } else {
        let mut i: usize = start;
        while i < d.len() && !(d[i] == COMMA || d[i] == CLOSE_BRACE || d[i] == CLOSE_BRACKET || d[i] == NEWLINE
            || d[i] == CR)
            invariant
                start <= i <= d@.len(),
                first_delim(d@, i as int) == first_delim(d@, start as int),
            decreases d@.len() - i,
        {
            i = i + 1;
        }
        Some(i)
    }
}


proof fn lemma_first_settled_bounds(d: Seq<u8>, start: int, m: int, open: u8, close: u8)
    requires
        0 <= m,
    ensures
        first_settled(d, start, m, open, close) matches Some(j) ==> m <= j <= d.len(),
    decreases d.len() + 1 - m,
{
    if m <= d.len() && !settled(scan_state(d, start, m, open, close)) {
        lemma_first_settled_bounds(d, start, m + 1, open, close);
    }
}

proof fn lemma_first_delim_bounds(d: Seq<u8>, m: int)
    requires
        0 <= m <= d.len(),
    ensures
        m <= first_delim(d, m) <= d.len(),
    decreases d.len() - m,
{
    if m < d.len() && !is_delim(d[m]) {
        lemma_first_delim_bounds(d, m + 1);
    }
}

/// A value that ends, ends after it starts and within the document.
pub proof fn lemma_value_end_bounds(d: Seq<u8>, start: int)
    ensures
        value_end(d, start) matches Some(j) ==> 0 <= start <= j <= d.len(),
{
    if 0 <= start < d.len() {
        if is_bracket(d[start]) {
            lemma_first_settled_bounds(d, start, start + 1, d[start], closer_of(d[start]));
        } else if d[start] == QUOTE {
            lemma_first_settled_bounds(d, start, start + 1, QUOTE, QUOTE);
        } else {
            lemma_first_delim_bounds(d, start);
        }
    }
}

} // verus!
