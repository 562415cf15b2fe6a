use vstd::prelude::*;

use crate::format::{indent_of, render_value};
use crate::locate::{first_key, key_decl_at, lemma_first_key, Lex, lex_at, value_start};
use crate::patch::{
    cleared, entry_text, last_brace, last_brace_before, PatchError, removal_end, removal_start,
    removed, synced,
};
use crate::scan::{lemma_value_end_bounds, value_end};
use crate::text::{
    CLOSE_BRACE, CLOSE_BRACKET, COMMA, NEWLINE, OPEN_BRACE, OPEN_BRACKET, back_blank, back_ws,
    is_ws, lemma_back_blank, lemma_back_ws, lemma_skip_blank, lemma_skip_ws, lemma_skip_ws_same_run,
    skip_blank, skip_ws,
};

verus! {

/// Clearing a document that does not declare the key gives it back unchanged.
pub proof fn lemma_clear_without_key_is_identity(d: Seq<u8>, k: Seq<u8>)
    requires
        first_key(d, k) is None,
    ensures
        cleared(d, k) == Ok::<Seq<u8>, PatchError>(d),
{
}

/// Text of the key that stands inside a string literal or a comment (part of
/// a URL, a description) is never taken for the key's declaration.
pub proof fn lemma_key_inside_string_is_ignored(d: Seq<u8>, k: Seq<u8>, i: int)
    requires
        0 <= i < d.len(),
        lex_at(d, i) != Lex::Code,
    ensures
        first_key(d, k) != Some(i),
{
    lemma_first_key(d, k);
}

/// Offset `m` lies in the declaration of `k` that the patch acts on: from
/// its opening quote to the end of its value.
pub open spec fn in_declaration(d: Seq<u8>, k: Seq<u8>, m: int) -> bool {
    first_key(d, k) matches Some(ks) && value_end(d, value_start(d, k, ks)) matches Some(ve) && ks
        <= m < ve
}

/// Setting the key keeps the rest of the document: the result is a prefix of
/// the document, new text, and a suffix of it, and what lies between prefix
/// and suffix is either whitespace or exactly the key's old value. So every
/// comment outside that value is still there, verbatim. This holds when the
/// key is declared or the document has a closing brace; a document with
/// neither is replaced by a new object.
pub proof fn lemma_sync_keeps_rest(d: Seq<u8>, k: Seq<u8>, ps: Seq<(Seq<u8>, Seq<u8>)>) -> (cut:
    (int, int, Seq<u8>))
    requires
        synced(d, k, ps) is Ok,
        first_key(d, k) is Some || last_brace(d) is Some,
    ensures
        0 <= cut.0 <= cut.1 <= d.len(),
        synced(d, k, ps) == Ok::<Seq<u8>, PatchError>(
            d.subrange(0, cut.0) + cut.2 + d.subrange(cut.1, d.len() as int),
        ),
        (forall|m: int| cut.0 <= m < cut.1 ==> is_ws(#[trigger] d[m])) || (first_key(d, k) matches Some(
            ks,
        ) && cut.0 == value_start(d, k, ks) && value_end(d, cut.0) == Some(cut.1)),
{
    lemma_first_key(d, k);
    let rendered = render_value(ps, indent_of(d));
    match first_key(d, k) {
        Some(ks) => {
            let vs = value_start(d, k, ks);
            lemma_value_end_bounds(d, vs);
            let ve = value_end(d, vs)->0;
            (vs, ve, rendered)
        },
        None => {
            let lb = last_brace(d)->0;
            lemma_last_brace(d, d.len() as int);
            lemma_back_ws(d, lb);
            let p = back_ws(d, lb);
            let mid = (if !(p > 0 && (d[p - 1] == OPEN_BRACE || d[p - 1] == COMMA)) {
                seq![COMMA]
            } else {
                seq![]
            }) + seq![NEWLINE] + entry_text(indent_of(d), k, rendered) + seq![NEWLINE];
            assert(synced(d, k, ps) == Ok::<Seq<u8>, PatchError>(
                d.subrange(0, p) + mid + d.subrange(lb, d.len() as int),
            )) by {
                assert(d.subrange(0, p) + mid + d.subrange(lb, d.len() as int) =~= d.subrange(
                    0,
                    p,
                ) + (if !(p > 0 && (d[p - 1] == OPEN_BRACE || d[p - 1] == COMMA)) {
                    seq![COMMA]
                } else {
                    seq![]
                }) + seq![NEWLINE] + entry_text(indent_of(d), k, rendered) + seq![NEWLINE]
                    + d.subrange(lb, d.len() as int));
            }
            (p, lb, mid)
        },
    }
}

/// The last brace found before `m` is a `}` before `m`.
pub proof fn lemma_last_brace(d: Seq<u8>, m: int)
    requires
        0 <= m <= d.len(),
    ensures
        last_brace_before(d, m) matches Some(i) ==> 0 <= i < m && d[i] == CLOSE_BRACE,
    decreases m,
{
    if m > 0 && d[m - 1] != CLOSE_BRACE {
        lemma_last_brace(d, m - 1);
    }
}

/// Removing the key keeps the rest of the document: the result is the
/// document with one stretch cut out, and every byte of that stretch outside
/// the key's declaration is whitespace or a comma. So every comment outside
/// the declaration is still there, verbatim.
pub proof fn lemma_clear_keeps_rest(d: Seq<u8>, k: Seq<u8>) -> (cut: (int, int))
    requires
        cleared(d, k) is Ok,
    ensures
        0 <= cut.0 <= cut.1 <= d.len(),
        cleared(d, k) == Ok::<Seq<u8>, PatchError>(
            d.subrange(0, cut.0) + d.subrange(cut.1, d.len() as int),
        ),
        forall|m: int|
            cut.0 <= m < cut.1 ==> is_ws(#[trigger] d[m]) || d[m] == COMMA || in_declaration(
                d,
                k,
                m,
            ),
{
    lemma_first_key(d, k);
    match first_key(d, k) {
        Some(ks) => {
            let vs = value_start(d, k, ks);
            lemma_value_end_bounds(d, vs);
            let ve = value_end(d, vs)->0;
            let rs = back_blank(d, ks);
            lemma_back_blank(d, ks);
            lemma_back_ws(d, rs);
            lemma_skip_blank(d, ve);
            let a = removal_start(d, ks, ve);
            let b = removal_end(d, ve);
            assert forall|m: int| a <= m < b implies is_ws(#[trigger] d[m]) || d[m] == COMMA
                || in_declaration(d, k, m) by {
                if m < rs {
                    if m >= back_ws(d, rs) {
                    }
                } else if m < ks {
                } else if m < ve {
                } else if m < skip_blank(d, ve) {
                }
            }
            (a, b)
        },
        None => {
            assert(d =~= d.subrange(0, 0) + d.subrange(0, d.len() as int));
            (0, 0)
        },
    }
}


/// No two commas with only whitespace between them: the document has no
/// empty member.
pub open spec fn no_empty_member(d: Seq<u8>) -> bool {
    forall|i: int|
        0 <= i < d.len() && #[trigger] d[i] == COMMA ==> back_ws(d, i) == 0 || d[back_ws(d, i) - 1]
            != COMMA
}

/// The entry whose key starts at `ks` follows a comma in code or an opening
/// bracket, with only whitespace between.
pub open spec fn entry_follows_separator(d: Seq<u8>, ks: int) -> bool {
    let p = back_ws(d, back_blank(d, ks));
    p > 0 && (d[p - 1] == COMMA || d[p - 1] == OPEN_BRACE || d[p - 1] == OPEN_BRACKET) && (d[p
        - 1] == COMMA ==> lex_at(d, p - 1) == Lex::Code)
}

/// The entry whose value ends at `ve` is followed, after whitespace, by a
/// closing bracket, or by a comma on the same line.
pub open spec fn entry_followed_by_separator(d: Seq<u8>, ve: int) -> bool {
    let q = skip_ws(d, ve);
    q < d.len() && (d[q] == CLOSE_BRACE || d[q] == CLOSE_BRACKET || (d[q] == COMMA && skip_blank(d, ve)
        == q))
}

/// `}` or `]`.
pub open spec fn is_closer(b: u8) -> bool {
    b == CLOSE_BRACE || b == CLOSE_BRACKET
}

proof fn lemma_back_ws_same_run(d: Seq<u8>, x: int, y: int)
    requires
        0 <= x <= y <= d.len(),
        forall|m: int| x <= m < y ==> is_ws(#[trigger] d[m]),
    ensures
        back_ws(d, x) == back_ws(d, y),
    decreases y - x,
{
    if x < y {
        lemma_back_ws_same_run(d, x, y - 1);
    }
}

proof fn lemma_back_ws_prefix(d: Seq<u8>, e: Seq<u8>, a: int)
    requires
        0 <= a <= d.len(),
        a <= e.len(),
        d.subrange(0, a) == e.subrange(0, a),
    ensures
        back_ws(d, a) == back_ws(e, a),
    decreases a,
{
    if a > 0 {
        assert(d[a - 1] == d.subrange(0, a)[a - 1]);
        assert(e[a - 1] == e.subrange(0, a)[a - 1]);
        if is_ws(d[a - 1]) {
            assert(d.subrange(0, a - 1) =~= d.subrange(0, a).subrange(0, a - 1));
            assert(e.subrange(0, a - 1) =~= e.subrange(0, a).subrange(0, a - 1));
            lemma_back_ws_prefix(d, e, a - 1);
        }
    }
}

proof fn lemma_skip_ws_suffix(d: Seq<u8>, e: Seq<u8>, a: int, b: int, t: int)
    requires
        0 <= a <= e.len(),
        0 <= b <= d.len(),
        e.len() - a == d.len() - b,
        e.subrange(a, e.len() as int) == d.subrange(b, d.len() as int),
        0 <= t <= d.len() - b,
    ensures
        skip_ws(e, a + t) - a == skip_ws(d, b + t) - b,
    decreases d.len() - b - t,
{
    if t < d.len() - b {
        assert(e[a + t] == e.subrange(a, e.len() as int)[t]);
        assert(d[b + t] == d.subrange(b, d.len() as int)[t]);
        if is_ws(d[b + t]) {
            lemma_skip_ws_suffix(d, e, a, b, t + 1);
        }
    }
}

/// Removing an entry leaves no dangling comma and no doubled one: where the
/// entry stood, a comma is never followed by a closing bracket or by another
/// comma, and when a member follows, a comma (or the opening bracket) comes
/// before it. This holds of entries that are separated as usual: after a
/// comma or an opening bracket, before a closing bracket or a comma on the
/// same line, in a document without empty members.
pub proof fn lemma_remove_leaves_no_dangling_comma(d: Seq<u8>, ks: int, ve: int)
    requires
        0 <= ks <= ve <= d.len(),
        no_empty_member(d),
        entry_follows_separator(d, ks),
        entry_followed_by_separator(d, ve),
    ensures
        ({
            let out = removed(d, ks, ve);
            let a = removal_start(d, ks, ve);
            let before = back_ws(out, a);
            let after = skip_ws(out, a);
            &&& before > 0 && out[before - 1] == COMMA ==> !(after < out.len() && (is_closer(
                out[after],
            ) || out[after] == COMMA))
            &&& after < out.len() && !is_closer(out[after]) ==> before > 0 && (out[before - 1]
                == COMMA || out[before - 1] == OPEN_BRACE || out[before - 1] == OPEN_BRACKET)
        }),
{
    let out = removed(d, ks, ve);
    let rs = back_blank(d, ks);
    lemma_back_blank(d, ks);
    lemma_back_ws(d, rs);
    let p = back_ws(d, rs);
    let j = skip_blank(d, ve);
    lemma_skip_blank(d, ve);
    let re = removal_end(d, ve);
    let e = if j < d.len() && d[j] == COMMA {
        j + 1
    } else {
        ve
    };
    assert(forall|m: int| e <= m < re ==> is_ws(#[trigger] d[m]));
    lemma_skip_ws_same_run(d, e, re);
    lemma_skip_ws_same_run(d, ve, j);
    lemma_skip_ws(d, j);
    lemma_skip_ws(d, e);
    let q = skip_ws(d, re);
    let a = removal_start(d, ks, ve);
    assert(out.subrange(0, a) =~= d.subrange(0, a));
    assert(out.subrange(a, out.len() as int) =~= d.subrange(re, d.len() as int));
    lemma_back_ws_prefix(d, out, a);
    lemma_skip_ws_suffix(d, out, a, re, 0);
    lemma_skip_ws(d, re);
    assert(skip_ws(out, a) - a == q - re);
    if q < d.len() {
        assert(out[skip_ws(out, a)] == d[q]) by {
            assert(out[skip_ws(out, a)] == out.subrange(a, out.len() as int)[q - re]);
        }
    }
    if a < rs {
        // the comma before the entry goes as well
        lemma_back_ws(d, p - 1);
        assert(d[p - 1] == COMMA);
    } else {
        if j < d.len() && d[j] == COMMA {
            if q < d.len() && d[q] == COMMA {
                lemma_back_ws_same_run(d, e, q);
                lemma_back_ws(d, e);
                assert(!is_ws(d[e - 1]));
                assert(back_ws(d, q) == back_ws(d, e));
                assert(back_ws(d, e) == e);
            }
        }
        if p > 0 {
            assert(out[p - 1] == d[p - 1]) by {
                assert(out[p - 1] == out.subrange(0, a)[p - 1]);
            }
        }
    }
}

} // verus!
