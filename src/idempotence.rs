use vstd::prelude::*;

use crate::format::{
    first_indented_from, indent_from, indent_of, indented_line_at, is_line_start,
    lemma_first_indented, lemma_indent_is_space, lemma_indent_skip, render_value,
};
use crate::laws::lemma_last_brace;
use crate::locate::{
    enclosed, first_key, key_decl_at, key_name_end, key_text_at, lemma_first_key,
    lemma_first_key_at, lemma_key_name_is_string, lemma_lex_code_run, lemma_lex_enclosed_run,
    lemma_lex_prefix, lemma_value_start_is_code, Lex, lex_at, lex_step, plain_key, value_start,
};
use crate::patch::{
    entry_text, inserted, last_brace, needs_comma, PatchError, replaced, synced, wrapped,
};
use crate::reread::lemma_rendered_value_reads_back;
use crate::scan::{lemma_value_end_bounds, value_end};
use crate::text::{
    lemma_skip_space, lemma_skip_space_before, lemma_skip_space_copy, lemma_skip_space_stops,
    skip_space, space_byte, space_width,
    CLOSE_BRACE, COLON, COMMA, NEWLINE, OPEN_BRACKET, QUOTE, SLASH, SPACE, back_ws, is_blank, is_ws,
    lemma_back_ws, lemma_skip_blank,
    lemma_skip_ws, lemma_skip_ws_same_run, lemma_skip_ws_stops, skip_blank, skip_ws,
};

verus! {

/// Within a window where two documents agree, a line that starts in the
/// window and whose leading whitespace ends in it, or at its end where both
/// hold an ASCII byte that is no blank and no line break, is indented alike in
/// both.
proof fn lemma_indented_alike(d: Seq<u8>, e: Seq<u8>, m: int, w: int)
    requires
        0 <= m < w,
        w < d.len(),
        w < e.len(),
        forall|i: int| 0 <= i < w ==> #[trigger] e[i] == d[i],
        skip_space(d, m) <= w,
        e[w] < 0x80u8 && !is_blank(e[w]),
        skip_space(d, m) == w ==> d[w] != NEWLINE && e[w] != NEWLINE,
    ensures
        indented_line_at(e, m) == indented_line_at(d, m),
        skip_space(e, m) == skip_space(d, m),
        indented_line_at(d, m) ==> e.subrange(m, skip_space(d, m)) == d.subrange(
            m,
            skip_space(d, m),
        ),
{
    let s = skip_space(d, m);
    lemma_skip_space(d, m);
    if s < w {
        assert(e[s] == d[s]);
        if s + 1 < w {
            assert(e[s + 1] == d[s + 1]);
        }
        if s + 2 < w {
            assert(e[s + 2] == d[s + 2]);
        }
    }
    assert(space_width(e, s) == 0);
    assert forall|t: int| 0 <= t < s - m implies e[m + t] == #[trigger] d[m + t] by {}
    lemma_skip_space_copy(d, m, e, m);
    if m > 0 {
        assert(e[m - 1] == d[m - 1]);
    }
    assert(is_line_start(e, m) == is_line_start(d, m));
    assert(e.subrange(m, s) =~= d.subrange(m, s));
}

/// Setting a declared key a second time to the same pairs changes nothing.
proof fn lemma_sync_replace_twice(d: Seq<u8>, k: Seq<u8>, ps: Seq<(Seq<u8>, Seq<u8>)>)
    requires
        plain_key(k),
        first_key(d, k) is Some,
        value_end(d, value_start(d, k, first_key(d, k)->0)) is Some,
        ps.len() == 0 || (first_indented_from(d, 0) matches Some(l) && l < value_start(
            d,
            k,
            first_key(d, k)->0,
        ) && space_width(d, value_start(d, k, first_key(d, k)->0)) == 0),
    ensures
        synced(d, k, ps) matches Ok(e) && synced(e, k, ps) == Ok::<Seq<u8>, PatchError>(e),
{
    let ks = first_key(d, k)->0;
    lemma_first_key(d, k);
    let vs = value_start(d, k, ks);
    lemma_value_end_bounds(d, vs);
    let ve = value_end(d, vs)->0;
    let ind = indent_of(d);
    lemma_indent_is_space(d);
    let r = render_value(ps, ind);
    let e = replaced(d, vs, ve, r);
    assert(synced(d, k, ps) == Ok::<Seq<u8>, PatchError>(e));
    lemma_value_start_is_code(d, k, ks);
    let x = key_name_end(k, ks);
    let c = skip_ws(d, x);
    lemma_skip_ws(d, x);
    lemma_skip_ws(d, c + 1);
    assert(r[0] == OPEN_BRACKET && r.len() >= 2);
    assert forall|i: int| 0 <= i < vs implies #[trigger] e[i] == d[i] by {}
    assert(e[vs] == OPEN_BRACKET);
    assert(d.subrange(0, vs) =~= e.subrange(0, vs));
    // the declaration is found where it was
    assert(d.subrange(0, ks) =~= e.subrange(0, ks));
    lemma_lex_prefix(d, e, ks);
    assert(e.subrange(ks + 1, ks + 1 + k.len()) =~= d.subrange(ks + 1, ks + 1 + k.len()));
    lemma_skip_ws_same_run(e, x, c);
    assert(skip_ws(e, c) == c);
    assert(key_text_at(e, k, ks));
    lemma_skip_ws_same_run(e, c + 1, vs);
    assert(skip_ws(e, vs) == vs);
    assert(value_start(e, k, ks) == vs);
    lemma_lex_prefix(d, e, vs);
    assert forall|j: int| 0 <= j < ks implies !key_decl_at(e, k, j) by {
        if key_decl_at(e, k, j) {
            if vs <= j + k.len() + 1 {
                lemma_key_name_is_string(e, k, j, vs);
            }
            let xj = key_name_end(k, j);
            let cj = skip_ws(e, xj);
            lemma_skip_ws(e, xj);
            assert(cj < vs);
            assert forall|i: int| xj <= i < cj implies is_ws(#[trigger] d[i]) by {
                assert(is_ws(e[i]));
            }
            lemma_skip_ws_same_run(d, xj, cj);
            assert(skip_ws(d, cj) == cj);
            assert(d.subrange(j + 1, j + 1 + k.len()) =~= e.subrange(j + 1, j + 1 + k.len()));
            assert(d.subrange(0, j) =~= e.subrange(0, j));
            lemma_lex_prefix(d, e, j);
            assert(key_decl_at(d, k, j));
        }
    }
    lemma_first_key_at(e, k, ks);
    // the rendered value is read back whole
    let pre = d.subrange(0, vs);
    let post = d.subrange(ve, d.len() as int);
    lemma_rendered_value_reads_back(pre, ps, ind, post);
    assert(e =~= pre + r + post);
    // the indent unit is found again
    if ps.len() > 0 {
        lemma_first_indented(d, 0);
        let l = first_indented_from(d, 0)->0;
        assert(!is_ws(d[vs]));
        assert(d[vs - 1] < 0x80u8);
        assert forall|m: int| 0 <= m < l implies !indented_line_at(e, m) by {
            lemma_skip_space_before(d, m, vs);
            lemma_indented_alike(d, e, m, vs);
        }
        lemma_skip_space_before(d, l, vs);
        lemma_indented_alike(d, e, l, vs);
        lemma_indent_skip(e, 0, l);
        assert(indent_of(e) == ind);
    }
    assert(render_value(ps, indent_of(e)) == r);
    assert(replaced(e, vs, vs + r.len(), r) =~= e);
}


/// A document that holds, from `entry_at` on, the entry that setting the key adds,
/// in code, with no declaration of the key before it, and whose indent unit
/// is the entry's, is left as it is by setting the key again.
proof fn lemma_entry_read_back(
    e: Seq<u8>,
    k: Seq<u8>,
    ps: Seq<(Seq<u8>, Seq<u8>)>,
    ind: Seq<u8>,
    head: Seq<u8>,
    tail: Seq<u8>,
)
    requires
        plain_key(k),
        ind.len() > 0,
        forall|i: int| 0 <= i < ind.len() ==> space_byte(#[trigger] ind[i]),
        e == head + entry_text(ind, k, render_value(ps, ind)) + tail,
        lex_at(e, head.len() as int) == Lex::Code,
        forall|j: int| 0 <= j < head.len() + ind.len() ==> !key_decl_at(e, k, j),
        indent_of(e) == ind,
    ensures
        synced(e, k, ps) == Ok::<Seq<u8>, PatchError>(e),
{
    let r = render_value(ps, ind);
    let entry_at = head.len() as int;
    let pk = entry_at + ind.len();
    let x = pk + k.len() + 2;
    let vs = x + 2;
    let ent = entry_text(ind, k, r);
    assert(r[0] == OPEN_BRACKET && r.len() >= 2);
    assert forall|i: int| 0 <= i < ent.len() implies #[trigger] e[entry_at + i] == ent[i] by {
        assert((head + ent)[entry_at + i] == ent[i]);
        assert(e[entry_at + i] == (head + ent)[entry_at + i]);
    }
    assert forall|i: int| entry_at <= i < pk implies #[trigger] e[i] != QUOTE && e[i] != SLASH by {
        assert(e[i] == ent[i - entry_at]);
        assert(ent[i - entry_at] == ind[i - entry_at]);
    }
    lemma_lex_code_run(e, entry_at, pk);
    assert(e[pk] == ent[ind.len() as int]);
    assert(e[pk] == QUOTE);
    assert forall|t: int| 0 <= t < k.len() implies e[pk + 1 + t] == #[trigger] k[t] by {
        assert(e[pk + 1 + t] == ent[ind.len() + 1 + t]);
    }
    assert(e.subrange(pk + 1, pk + 1 + k.len()) =~= k);
    assert(e[pk + 1 + k.len()] == ent[(ind.len() + 1 + k.len()) as int]);
    assert(e[x] == ent[(ind.len() + k.len() + 2) as int]);
    assert(e[x + 1] == ent[(ind.len() + k.len() + 3) as int]);
    assert(e[vs] == ent[(ind.len() + k.len() + 4) as int]);
    assert(e[x] == COLON && e[x + 1] == SPACE && e[vs] == OPEN_BRACKET);
    assert(skip_ws(e, x) == x);
    assert(skip_ws(e, vs) == vs);
    assert(skip_ws(e, x + 1) == vs);
    assert(key_text_at(e, k, pk));
    assert(value_start(e, k, pk) == vs);
    lemma_first_key_at(e, k, pk);
    let pre = e.subrange(0, vs);
    assert(e.len() >= vs + r.len());
    assert(e.subrange(vs, vs + r.len()) =~= r) by {
        assert forall|i: int| 0 <= i < r.len() implies #[trigger] e[vs + i] == r[i] by {
            assert(e[vs + i] == ent[ind.len() + k.len() + 4 + i]);
        }
    }
    let post = e.subrange(vs + r.len(), e.len() as int);
    assert(e =~= pre + r + post);
    lemma_rendered_value_reads_back(pre, ps, ind, post);
    assert(replaced(e, vs, vs + r.len(), r) =~= e);
}

/// Setting an absent key a second time, after it was added before the last
/// brace, changes nothing.
#[verifier::rlimit(60)]
proof fn lemma_sync_insert_twice(d: Seq<u8>, k: Seq<u8>, ps: Seq<(Seq<u8>, Seq<u8>)>)
    requires
        plain_key(k),
        first_key(d, k) is None,
        last_brace(d) matches Some(lb) && lex_at(d, lb) == Lex::Code && (back_ws(d, lb) == 0
            || d[back_ws(d, lb) - 1] < 0x80u8),
    ensures
        synced(d, k, ps) matches Ok(e) && synced(e, k, ps) == Ok::<Seq<u8>, PatchError>(e),
{
    lemma_first_key(d, k);
    let lb = last_brace(d)->0;
    lemma_last_brace(d, d.len() as int);
    lemma_back_ws(d, lb);
    let p = back_ws(d, lb);
    let ind = indent_of(d);
    lemma_indent_is_space(d);
    let r = render_value(ps, ind);
    let ent = entry_text(ind, k, r);
    let cm: Seq<u8> = if needs_comma(d, p) {
        seq![COMMA]
    } else {
        seq![]
    };
    let tail = seq![NEWLINE] + d.subrange(lb, d.len() as int);
    let e = inserted(d, lb, ent);
    let entry_at = p + cm.len() + 1;
    let head = d.subrange(0, p) + cm + seq![NEWLINE];
    assert(e =~= head + ent + tail);
    assert(e.subrange(0, entry_at) =~= head);
    assert(synced(d, k, ps) == Ok::<Seq<u8>, PatchError>(e));
    assert forall|i: int| 0 <= i < p implies #[trigger] e[i] == d[i] by {}
    assert(d.subrange(0, p) =~= e.subrange(0, p));
    assert(p == 0 ==> cm.len() == 1);
    // the lexer is in code where the entry starts
    lemma_lex_prefix(d, e, p);
    if enclosed(lex_at(d, p)) {
        lemma_lex_enclosed_run(d, p, lb);
    }
    assert(!enclosed(lex_at(e, p)));
    let s0 = lex_at(e, p);
    assert(s0 == Lex::Code || s0 == Lex::Slash || s0 == Lex::LineComment);
    assert(lex_at(e, entry_at) == Lex::Code) by {
        if cm.len() == 1 {
            assert(e[p] == COMMA);
            assert(e[p + 1] == NEWLINE);
            assert(lex_at(e, p + 1) == lex_step(s0, e[p]));
            assert(lex_at(e, p + 2) == lex_step(lex_at(e, p + 1), e[p + 1]));
        } else {
            assert(e[p] == NEWLINE);
            assert(lex_at(e, p + 1) == lex_step(s0, e[p]));
        }
    }
    // nothing before the entry declares the key
    let pk = entry_at + ind.len();
    assert forall|i: int| p <= i < pk implies #[trigger] e[i] != COLON && e[i] != QUOTE by {
        if i >= entry_at {
            assert(e[i] == ent[i - entry_at]);
            assert(ent[i - entry_at] == ind[i - entry_at]);
        }
    }
    assert(e[pk] == ent[ind.len() as int]);
    assert forall|j: int| 0 <= j < pk implies !key_decl_at(e, k, j) by {
        if key_decl_at(e, k, j) && j < p {
            if p <= j + k.len() + 1 {
                lemma_key_name_is_string(e, k, j, p);
            }
            let xj = key_name_end(k, j);
            let cj = skip_ws(e, xj);
            lemma_skip_ws(e, xj);
            if cm.len() == 1 {
                lemma_skip_ws_stops(e, xj, p);
            } else {
                lemma_skip_ws_stops(e, xj, pk);
            }
            assert(cj < p);
            assert forall|i: int| xj <= i < cj implies is_ws(#[trigger] d[i]) by {
                assert(is_ws(e[i]));
            }
            lemma_skip_ws_same_run(d, xj, cj);
            assert(skip_ws(d, cj) == cj);
            assert(d.subrange(j + 1, j + 1 + k.len()) =~= e.subrange(j + 1, j + 1 + k.len()));
            assert(d.subrange(0, j) =~= e.subrange(0, j));
            lemma_lex_prefix(d, e, j);
            assert(key_decl_at(d, k, j));
        }
    }
    // the indent unit is found again
    lemma_first_indented(d, 0);
    let found_before = first_indented_from(d, 0) matches Some(l) && l < p;
    if found_before {
        let l = first_indented_from(d, 0)->0;
        assert(p > 0 && !is_ws(d[p - 1]) && d[p - 1] < 0x80u8);
        assert(e[p] == COMMA || e[p] == NEWLINE);
        assert forall|m: int| 0 <= m < l implies !indented_line_at(e, m) by {
            lemma_skip_space_stops(d, m, p - 1);
            lemma_indented_alike(d, e, m, p);
        }
        lemma_skip_space_stops(d, l, p - 1);
        lemma_indented_alike(d, e, l, p);
        lemma_indent_skip(e, 0, l);
    } else {
        assert(e[p] == COMMA || e[p] == NEWLINE);
        assert forall|m: int| 0 <= m < entry_at implies !indented_line_at(e, m) by {
            if m < p {
                lemma_skip_space_stops(d, m, p - 1);
                lemma_indented_alike(d, e, m, p);
            } else {
                if cm.len() == 1 {
                    assert(e[p] == COMMA);
                    assert(e[p + 1] == NEWLINE);
                } else {
                    assert(e[p] == NEWLINE);
                }
                assert(space_width(e, m) == 0);
                assert(skip_space(e, m) == m);
            }
        }
        assert forall|t: int| 0 <= t < skip_space(ind, 0) - 0 implies e[entry_at + t]
            == #[trigger] ind[0 + t] by {
            assert(e[entry_at + t] == ent[t]);
        }
        assert(space_width(e, pk) == 0);
        lemma_skip_space_copy(ind, 0, e, entry_at);
        assert(e.subrange(entry_at, pk) =~= ind);
        lemma_indent_skip(e, 0, entry_at);
    }
    assert(indent_of(e) == ind);
    lemma_entry_read_back(e, k, ps, ind, head, tail);
}

/// Setting an absent key a second time, after a new object was made for it,
/// changes nothing.
proof fn lemma_sync_wrap_twice(d: Seq<u8>, k: Seq<u8>, ps: Seq<(Seq<u8>, Seq<u8>)>)
    requires
        plain_key(k),
        first_key(d, k) is None,
        last_brace(d) is None,
    ensures
        synced(d, k, ps) matches Ok(e) && synced(e, k, ps) == Ok::<Seq<u8>, PatchError>(e),
{
    let ind = indent_of(d);
    lemma_indent_is_space(d);
    let r = render_value(ps, ind);
    let ent = entry_text(ind, k, r);
    let e = wrapped(ent);
    let tail = seq![NEWLINE, CLOSE_BRACE, NEWLINE];
    assert(e =~= e.subrange(0, 2) + ent + tail);
    assert(synced(d, k, ps) == Ok::<Seq<u8>, PatchError>(e));
    let pk = 2 + ind.len() as int;
    assert forall|i: int| 0 <= i < pk implies #[trigger] e[i] != QUOTE && e[i] != SLASH && (i
        < 2 || space_byte(e[i])) by {
        if i >= 2 {
            assert(e[i] == ent[i - 2]);
            assert(ent[i - 2] == ind[i - 2]);
        }
    }
    lemma_lex_code_run(e, 0, 2);
    assert(e[pk] == ent[ind.len() as int]);
    assert forall|j: int| 0 <= j < pk implies !key_decl_at(e, k, j) by {}
    assert forall|t: int| 0 <= t < skip_space(ind, 0) - 0 implies e[2 + t] == #[trigger] ind[0
        + t] by {
        assert(e[2 + t] == ent[t]);
    }
    assert(space_width(e, pk) == 0);
    lemma_skip_space_copy(ind, 0, e, 2);
    assert(space_width(e, 0) == 0);
    assert(e.subrange(2, pk) =~= ind);
    assert(!indented_line_at(e, 0));
    assert(!indented_line_at(e, 1));
    assert(indented_line_at(e, 2));
    lemma_indent_skip(e, 0, 2);
    assert(indent_of(e) == ind);
    lemma_entry_read_back(e, k, ps, ind, e.subrange(0, 2), tail);
}


/// The cases in which setting the key is repeatable: a declared key whose
/// pairs are empty, or whose document has an indented line before the value
/// and a value that does not start with a whitespace character; or an absent
/// key whose document's last closing brace, if any, stands in code and is
/// preceded, past the whitespace, by an ASCII byte or nothing.
pub open spec fn sync_repeatable(d: Seq<u8>, k: Seq<u8>, ps: Seq<(Seq<u8>, Seq<u8>)>) -> bool {
    match first_key(d, k) {
        Some(ks) => ps.len() == 0 || (first_indented_from(d, 0) matches Some(l) && l < value_start(
            d,
            k,
            ks,
        ) && space_width(d, value_start(d, k, ks)) == 0),
        None => match last_brace(d) {
            Some(lb) => lex_at(d, lb) == Lex::Code && (back_ws(d, lb) == 0 || d[back_ws(d, lb) - 1]
                < 0x80u8),
            None => true,
        },
    }
}

/// Setting the key twice to the same pairs gives the same document as
/// setting it once. Key names are free of quotes and backslashes. Where the
/// key is declared with pairs to write but no line before its value is
/// indented, the new value's own lines would set a different indent unit,
/// and where the last closing brace stands inside a string or a comment the
/// added entry would too; those documents are left out, with the few others
/// that `sync_repeatable` names.
pub proof fn lemma_sync_is_idempotent(d: Seq<u8>, k: Seq<u8>, ps: Seq<(Seq<u8>, Seq<u8>)>)
    requires
        plain_key(k),
        synced(d, k, ps) is Ok,
        sync_repeatable(d, k, ps),
    ensures
        synced(d, k, ps) matches Ok(e) && synced(e, k, ps) == synced(d, k, ps),
{
    match first_key(d, k) {
        Some(ks) => lemma_sync_replace_twice(d, k, ps),
        None => match last_brace(d) {
            Some(lb) => lemma_sync_insert_twice(d, k, ps),
            None => lemma_sync_wrap_twice(d, k, ps),
        },
    }
}

} // verus!
