use vstd::prelude::*;
use vstd::utf8::{encode_utf8, encode_utf8_valid_utf8, valid_utf8};

use crate::encoding::{lemma_cleared_valid, lemma_synced_valid, utf8_to_string};
use crate::format::{detect_indent, format_value, indent_of, pair_bytes, render_value};
use crate::locate::{
    find_key, first_key, lemma_first_key, Lex, lex_at, lex_state_at, value_start,
};
use crate::scan::{find_value_end, lemma_value_end_bounds, value_end};
use crate::text::{
    CLOSE_BRACE, CLOSE_BRACKET, COLON, COMMA, CR, NEWLINE, OPEN_BRACE, QUOTE, SPACE, back_blank,
    back_blanks, back_whitespace, back_ws, lemma_back_blank, lemma_back_ws, lemma_skip_blank,
    lemma_skip_ws, push_range, skip_blank, skip_blanks, skip_whitespace, skip_ws,
};

verus! {

/// Why a document could not be patched.
#[derive(PartialEq, Eq, Structural, Clone, Copy, Debug)]
pub enum PatchError {
    /// The key is declared but its value never closes (an unterminated
    /// string or bracket).
    MalformedValue,
}

/// The line that declares key `k` with the rendered value: `indent"k": value`.
pub open spec fn entry_text(indent: Seq<u8>, k: Seq<u8>, rendered: Seq<u8>) -> Seq<u8> {
    indent + seq![QUOTE] + k + seq![QUOTE, COLON, SPACE] + rendered
}

/// `d` with `d[vs..ve]` replaced by `rendered`.
pub open spec fn replaced(d: Seq<u8>, vs: int, ve: int, rendered: Seq<u8>) -> Seq<u8> {
    d.subrange(0, vs) + rendered + d.subrange(ve, d.len() as int)
}

/// The last `}` before `m`.
pub open spec fn last_brace_before(d: Seq<u8>, m: int) -> Option<int>
    decreases m,
{
    if m <= 0 || m > d.len() {
        None
    } else if d[m - 1] == CLOSE_BRACE {
        Some(m - 1)
    } else {
        last_brace_before(d, m - 1)
    }
}

/// The last `}` of the document: the end of its top-level object.
pub open spec fn last_brace(d: Seq<u8>) -> Option<int> {
    last_brace_before(d, d.len() as int)
}

/// An entry ending at `p` needs a comma in front of it: the text before
/// does not end in `{` or `,`.
pub open spec fn needs_comma(d: Seq<u8>, p: int) -> bool {
    !(p > 0 && (d[p - 1] == OPEN_BRACE || d[p - 1] == COMMA))
}

/// `d` with `entry` added as the last member of the object closed at `lb`:
/// the whitespace before the brace gives way to an optional comma, a line
/// break, the entry and a line break.
pub open spec fn inserted(d: Seq<u8>, lb: int, entry: Seq<u8>) -> Seq<u8> {
    let p = back_ws(d, lb);
    d.subrange(0, p) + (if needs_comma(d, p) {
        seq![COMMA]
    } else {
        seq![]
    }) + seq![NEWLINE] + entry + seq![NEWLINE] + d.subrange(lb, d.len() as int)
}

/// A new document that holds only `entry`.
pub open spec fn wrapped(entry: Seq<u8>) -> Seq<u8> {
    seq![OPEN_BRACE, NEWLINE] + entry + seq![NEWLINE, CLOSE_BRACE, NEWLINE]
}

/// `d` with the entry added: before the last `}`, or in a new object when
/// there is none.
pub open spec fn with_entry(d: Seq<u8>, entry: Seq<u8>) -> Seq<u8> {
    match last_brace(d) {
        Some(lb) => inserted(d, lb, entry),
        None => wrapped(entry),
    }
}

/// Where the removal of an entry whose value ends at `ve` stops: after a
/// comma on the same line, if any, and then after one line break.
pub open spec fn removal_end(d: Seq<u8>, ve: int) -> int {
    let j = skip_blank(d, ve);
    let e = if j < d.len() && d[j] == COMMA {
        j + 1
    } else {
        ve
    };
    if e < d.len() && d[e] == NEWLINE {
        e + 1
    } else if e + 1 < d.len() && d[e] == CR && d[e + 1] == NEWLINE {
        e + 2
    } else {
        e
    }
}

/// Where the removal of an entry whose key starts at `ks` and whose value
/// ends at `ve` begins: at the blanks in front of the key, or, when the
/// entry was the last before a closing bracket, at the comma that preceded it,
/// if that comma stands in code (a comma that ends a comment stays).
pub open spec fn removal_start(d: Seq<u8>, ks: int, ve: int) -> int {
    let rs = back_blank(d, ks);
    let p = back_ws(d, rs);
    let q = skip_ws(d, removal_end(d, ve));
    if p > 0 && d[p - 1] == COMMA && lex_at(d, p - 1) == Lex::Code && q < d.len() && (d[q]
        == CLOSE_BRACE || d[q] == CLOSE_BRACKET) {
        p - 1
    } else {
        rs
    }
}

/// `d` without the entry from `ks` to `ve`, tidied as above.
pub open spec fn removed(d: Seq<u8>, ks: int, ve: int) -> Seq<u8> {
    d.subrange(0, removal_start(d, ks, ve)) + d.subrange(removal_end(d, ve), d.len() as int)
}

/// The document after setting key `k` to the array of the pairs `ps`.
pub open spec fn synced(d: Seq<u8>, k: Seq<u8>, ps: Seq<(Seq<u8>, Seq<u8>)>) -> Result<
    Seq<u8>,
    PatchError,
> {
    let rendered = render_value(ps, indent_of(d));
    match first_key(d, k) {
        Some(ks) => match value_end(d, value_start(d, k, ks)) {
            Some(ve) => Ok(replaced(d, value_start(d, k, ks), ve, rendered)),
            None => Err(PatchError::MalformedValue),
        },
        None => Ok(with_entry(d, entry_text(indent_of(d), k, rendered))),
    }
}

/// The document after removing key `k`.
pub open spec fn cleared(d: Seq<u8>, k: Seq<u8>) -> Result<Seq<u8>, PatchError> {
    match first_key(d, k) {
        Some(ks) => match value_end(d, value_start(d, k, ks)) {
            Some(ve) => Ok(removed(d, ks, ve)),
            None => Err(PatchError::MalformedValue),
        },
        None => Ok(d),
    }
}

/// The result with the bytes as a sequence.
pub open spec fn result_view(r: Result<Vec<u8>, PatchError>) -> Result<Seq<u8>, PatchError> {
    match r {
        Ok(v) => Ok(v@),
        Err(e) => Err(e),
    }
}

/// The pairs as bytes.
pub open spec fn pairs_view(pairs: Seq<(String, String)>) -> Seq<(Seq<u8>, Seq<u8>)> {
    pairs.map_values(|p: (String, String)| pair_bytes(p))
}

/// Replaces the value at `d[vs..ve]` by `rendered`.
pub fn apply_replace(d: &[u8], vs: usize, ve: usize, rendered: &[u8]) -> (r: Vec<u8>)
    requires
        vs <= ve <= d@.len(),
    ensures
        r@ == replaced(d@, vs as int, ve as int, rendered@),
{
    let mut out: Vec<u8> = Vec::new();
    push_range(&mut out, d, 0, vs);
    push_range(&mut out, rendered, 0, rendered.len());
    push_range(&mut out, d, ve, d.len());
    assert(rendered@.subrange(0, rendered@.len() as int) =~= rendered@);
    assert(out@ =~= replaced(d@, vs as int, ve as int, rendered@));
    out
}

/// Offset of the last `}` of the document.
pub fn find_last_brace(d: &[u8]) -> (r: Option<usize>)
    ensures
        r matches Some(i) ==> last_brace(d@) == Some(i as int) && i < d@.len(),
        r is None ==> last_brace(d@) is None,
{
    let mut m: usize = d.len();
    while m > 0
        invariant
            m <= d@.len(),
            last_brace(d@) == last_brace_before(d@, m as int),
        decreases m,
    {
        if d[m - 1] == CLOSE_BRACE {
            return Some(m - 1);
        }
        m = m - 1;
    }
    None
}

/// Adds `"k": rendered`, indented by `indent`, as the last member of the
/// document's top-level object, or wraps it in a new object when the
/// document has no closing brace.
pub fn apply_insert(d: &[u8], k: &[u8], rendered: &[u8], indent: &[u8]) -> (r: Vec<u8>)
    ensures
        r@ == with_entry(d@, entry_text(indent@, k@, rendered@)),
{
    let mut entry: Vec<u8> = Vec::new();
    push_range(&mut entry, indent, 0, indent.len());
    entry.push(QUOTE);
    push_range(&mut entry, k, 0, k.len());
    entry.push(QUOTE);
    entry.push(COLON);
    entry.push(SPACE);
    push_range(&mut entry, rendered, 0, rendered.len());
    proof {
        assert(indent@.subrange(0, indent@.len() as int) =~= indent@);
        assert(k@.subrange(0, k@.len() as int) =~= k@);
        assert(rendered@.subrange(0, rendered@.len() as int) =~= rendered@);
    }
    assert(entry@ =~= entry_text(indent@, k@, rendered@));
    let mut out: Vec<u8> = Vec::new();
    match find_last_brace(d) {
        Some(lb) => {
            let p = back_whitespace(d, lb);
            proof {
                lemma_back_ws(d@, lb as int);
            }
            push_range(&mut out, d, 0, p);
            if !(p > 0 && (d[p - 1] == OPEN_BRACE || d[p - 1] == COMMA)) {
                out.push(COMMA);
            }
            out.push(NEWLINE);
            push_range(&mut out, entry.as_slice(), 0, entry.len());
            out.push(NEWLINE);
            push_range(&mut out, d, lb, d.len());
            assert(entry@.subrange(0, entry@.len() as int) =~= entry@);
            assert(out@ =~= inserted(d@, lb as int, entry@));
        },
        None => {
            out.push(OPEN_BRACE);
            out.push(NEWLINE);
            push_range(&mut out, entry.as_slice(), 0, entry.len());
            out.push(NEWLINE);
            out.push(CLOSE_BRACE);
            out.push(NEWLINE);
            assert(entry@.subrange(0, entry@.len() as int) =~= entry@);
            assert(out@ =~= wrapped(entry@));
        },
    }
    out
}

/// Removes the entry whose key starts at `ks` and whose value ends at `ve`,
/// with the blanks in front of it, a comma after it on the same line, one
/// line break, and a comma that would be left dangling before a closing
/// bracket.
pub fn apply_remove(d: &[u8], ks: usize, ve: usize) -> (r: Vec<u8>)
    requires
        ks <= ve <= d@.len(),
    ensures
        r@ == removed(d@, ks as int, ve as int),
        removal_start(d@, ks as int, ve as int) <= ks,
        ve <= removal_end(d@, ve as int) <= d@.len(),
{
    let ghost dv = d@;
    let j = skip_blanks(d, ve);
    proof {
        lemma_skip_blank(dv, ve as int);
    }
    let mut e: usize = if j < d.len() && d[j] == COMMA {
        j + 1
    } else {
        ve
    };
    if e < d.len() && d[e] == NEWLINE {
        e = e + 1;
    } else if e < d.len() && d.len() - e > 1 && d[e] == CR && d[e + 1] == NEWLINE {
        e = e + 2;
    }
    assert(e as int == removal_end(dv, ve as int));
    let rs = back_blanks(d, ks);
    proof {
        lemma_back_blank(dv, ks as int);
    }
    let p = back_whitespace(d, rs);
    let q = skip_whitespace(d, e);
    proof {
        lemma_back_ws(dv, rs as int);
    }
    let cut = if p > 0 && d[p - 1] == COMMA && q < d.len() && (d[q] == CLOSE_BRACE || d[q]
        == CLOSE_BRACKET) && lex_state_at(d, p - 1) == Lex::Code {
        p - 1
    } else {
        rs
    };
    let mut out: Vec<u8> = Vec::new();
    push_range(&mut out, d, 0, cut);
    push_range(&mut out, d, e, d.len());
    out
}

/// The bytes of the document after setting the key (see `sync_document`).
fn sync_bytes(doc: &str, k: &str, pairs: &[(String, String)]) -> (r: Result<
    Vec<u8>,
    PatchError,
>)
    ensures
        result_view(r) == synced(encode_utf8(doc@), encode_utf8(k@), pairs_view(pairs@)),
{
    let d = doc.as_bytes();
    let kb = k.as_bytes();
    let indent = detect_indent(d);
    let rendered = format_value(pairs, indent.as_slice());
    proof {
        lemma_first_key(d@, kb@);
    }
    match find_key(d, kb) {
        Some((_ks, vs)) => match find_value_end(d, vs) {
            Some(ve) => {
                proof {
                    lemma_value_end_bounds(d@, vs as int);
                }
                Ok(apply_replace(d, vs, ve, rendered.as_slice()))
            },
            None => Err(PatchError::MalformedValue),
        },
        None => Ok(apply_insert(d, kb, rendered.as_slice(), indent.as_slice())),
    }
}

/// The bytes of the document after removing the key (see `clear_document`).
fn clear_bytes(doc: &str, k: &str) -> (r: Result<Vec<u8>, PatchError>)
    ensures
        result_view(r) == cleared(encode_utf8(doc@), encode_utf8(k@)),
{
    let d = doc.as_bytes();
    let kb = k.as_bytes();
    proof {
        lemma_first_key(d@, kb@);
    }
    match find_key(d, kb) {
        Some((ks, vs)) => match find_value_end(d, vs) {
            Some(ve) => {
                proof {
                    lemma_value_end_bounds(d@, vs as int);
                }
                Ok(apply_remove(d, ks, ve))
            },
            None => Err(PatchError::MalformedValue),
        },
        None => {
            let mut out: Vec<u8> = Vec::new();
            push_range(&mut out, d, 0, d.len());
            assert(out@ =~= d@);
            Ok(out)
        },
    }
}


/// The result with the text as its UTF-8 bytes.
pub open spec fn text_view(r: Result<String, PatchError>) -> Result<Seq<u8>, PatchError> {
    match r {
        Ok(s) => Ok(encode_utf8(s@)),
        Err(e) => Err(e),
    }
}

/// Sets key `k` of the document to the array of `{"name", "value"}` objects
/// for `pairs`, leaving every other byte as it was: the value is replaced
/// when `k` is declared, else the entry is added (see `synced`). The result
/// is the text whose UTF-8 bytes `synced` describes.
pub fn sync_document(doc: &str, k: &str, pairs: &[(String, String)]) -> (r: Result<
    String,
    PatchError,
>)
    ensures
        text_view(r) == synced(encode_utf8(doc@), encode_utf8(k@), pairs_view(pairs@)),
{
    match sync_bytes(doc, k, pairs) {
        Ok(v) => {
            proof {
                encode_utf8_valid_utf8(doc@);
                encode_utf8_valid_utf8(k@);
                let ps = pairs_view(pairs@);
                assert forall|i: int| 0 <= i < ps.len() implies valid_utf8(#[trigger] ps[i].0)
                    && valid_utf8(ps[i].1) by {
                    encode_utf8_valid_utf8(pairs@[i].0@);
                    encode_utf8_valid_utf8(pairs@[i].1@);
                }
                lemma_synced_valid(encode_utf8(doc@), encode_utf8(k@), ps);
            }
            Ok(utf8_to_string(v))
        },
        Err(e) => Err(e),
    }
}

/// Removes key `k` and its value from the document (see `cleared`); a
/// document that does not declare `k` comes back unchanged.
pub fn clear_document(doc: &str, k: &str) -> (r: Result<String, PatchError>)
    ensures
        text_view(r) == cleared(encode_utf8(doc@), encode_utf8(k@)),
{
    match clear_bytes(doc, k) {
        Ok(v) => {
            proof {
                encode_utf8_valid_utf8(doc@);
                lemma_cleared_valid(encode_utf8(doc@), encode_utf8(k@));
            }
            Ok(utf8_to_string(v))
        },
        Err(e) => Err(e),
    }
}

} // verus!
