use vstd::prelude::*;
use vstd::utf8::encode_utf8;

use crate::scan::{find_value_end, value_end};
use crate::text::{
    BACKSLASH, COLON, NEWLINE, QUOTE, SLASH, STAR, is_ws, lemma_skip_ws, skip_whitespace, skip_ws,
};

verus! {

/// Lexical context of a position in a JSONC document.
#[derive(PartialEq, Eq, Structural, Clone, Copy, Debug)]
pub enum Lex {
    /// Plain JSON structure.
    Code,
    /// Right after a `/` in code: a comment may be starting.
    Slash,
    /// Inside a string literal.
    Str,
    /// Inside a string literal, right after a backslash.
    StrEscape,
    /// Inside a `//` comment.
    LineComment,
    /// Inside a `/* */` comment.
    BlockComment,
    /// Inside a `/* */` comment, right after a `*`.
    BlockStar,
}

/// The context after reading byte `b` in code.
pub open spec fn code_step(b: u8) -> Lex {
    if b == QUOTE {
        Lex::Str
    } else if b == SLASH {
        Lex::Slash
    } else {
        Lex::Code
    }
}

/// The context after reading byte `b` in context `s`.
pub open spec fn lex_step(s: Lex, b: u8) -> Lex {
    match s {
        Lex::Code => code_step(b),
        Lex::Slash => if b == SLASH {
            Lex::LineComment
        } else if b == STAR {
            Lex::BlockComment
        } else {
            code_step(b)
        },
        Lex::Str => if b == BACKSLASH {
            Lex::StrEscape
        } else if b == QUOTE {
            Lex::Code
        } else {
            Lex::Str
        },
        Lex::StrEscape => Lex::Str,
        Lex::LineComment => if b == NEWLINE {
            Lex::Code
        } else {
            Lex::LineComment
        },
        Lex::BlockComment => if b == STAR {
            Lex::BlockStar
        } else {
            Lex::BlockComment
        },
        Lex::BlockStar => if b == SLASH {
            Lex::Code
        } else if b == STAR {
            Lex::BlockStar
        } else {
            Lex::BlockComment
        },
    }
}

/// The context in front of byte `i` of `d`.
pub open spec fn lex_at(d: Seq<u8>, i: int) -> Lex
    decreases i,
{
    if i <= 0 {
        Lex::Code
    } else {
        lex_step(lex_at(d, i - 1), d[i - 1])
    }
}

/// Offset just past the closing quote of `"k"` written at `i`.
pub open spec fn key_name_end(k: Seq<u8>, i: int) -> int {
    i + k.len() + 2
}

/// `d` holds `"k"` at `i`, followed by optional whitespace and a colon.
pub open spec fn key_text_at(d: Seq<u8>, k: Seq<u8>, i: int) -> bool {
    &&& 0 <= i
    &&& key_name_end(k, i) <= d.len()
    &&& d[i] == QUOTE
    &&& d.subrange(i + 1, i + 1 + k.len()) == k
    &&& d[i + 1 + k.len()] == QUOTE
    &&& skip_ws(d, key_name_end(k, i)) < d.len()
    &&& d[skip_ws(d, key_name_end(k, i))] == COLON
}

/// A declaration of key `k` starts at `i`: the key text stands there in code,
/// not inside a string literal or a comment.
pub open spec fn key_decl_at(d: Seq<u8>, k: Seq<u8>, i: int) -> bool {
    lex_at(d, i) == Lex::Code && key_text_at(d, k, i)
}

/// The first declaration of `k` at or after `m`.
pub open spec fn first_key_from(d: Seq<u8>, k: Seq<u8>, m: int) -> Option<int>
    decreases d.len() - m,
{
    if m < 0 || m >= d.len() {
        None
    } else if key_decl_at(d, k, m) {
        Some(m)
    } else {
        first_key_from(d, k, m + 1)
    }
}

/// The first declaration of `k` in `d`.
pub open spec fn first_key(d: Seq<u8>, k: Seq<u8>) -> Option<int> {
    first_key_from(d, k, 0)
}

/// Where the value of the declaration at `i` begins: past the colon and
/// the whitespace after it.
pub open spec fn value_start(d: Seq<u8>, k: Seq<u8>, i: int) -> int {
    skip_ws(d, skip_ws(d, key_name_end(k, i)) + 1)
}

fn lex_next(s: Lex, b: u8) -> (r: Lex)
    ensures
        r == lex_step(s, b),
{
    match s {
        Lex::Code => if b == QUOTE {
            Lex::Str
        } else if b == SLASH {
            Lex::Slash
        } else {
            Lex::Code
        },
        Lex::Slash => if b == SLASH {
            Lex::LineComment
        } else if b == STAR {
            Lex::BlockComment
        } else if b == QUOTE {
            Lex::Str
        } else if b == SLASH {
            Lex::Slash
        } else {
            Lex::Code
        },
        Lex::Str => if b == BACKSLASH {
            Lex::StrEscape
        } else if b == QUOTE {
            Lex::Code
        } else {
            Lex::Str
        },
        Lex::StrEscape => Lex::Str,
        Lex::LineComment => if b == NEWLINE {
            Lex::Code
        } else {
            Lex::LineComment
        },
        Lex::BlockComment => if b == STAR {
            Lex::BlockStar
        } else {
            Lex::BlockComment
        },
        Lex::BlockStar => if b == SLASH {
            Lex::Code
        } else if b == STAR {
            Lex::BlockStar
        } else {
            Lex::BlockComment
        },
    }
}

/// The context in front of byte `i` (see `lex_at`).
pub fn lex_state_at(d: &[u8], i: usize) -> (r: Lex)
    requires
        i <= d@.len(),
    ensures
        r == lex_at(d@, i as int),
{
    let mut st = Lex::Code;
    let mut j: usize = 0;
    while j < i
        invariant
            j <= i <= d@.len(),
            st == lex_at(d@, j as int),
        decreases i - j,
    {
        st = lex_next(st, d[j]);
        j = j + 1;
    }
    st
}

/// Whether `d` holds the key text `"k"` and a colon at `i`.
fn key_text_matches(d: &[u8], k: &[u8], i: usize) -> (r: bool)
    requires
        i < d@.len(),
    ensures
        r == key_text_at(d@, k@, i as int),
{
    if k.len() > d.len() - i || d.len() - i - k.len() < 2 {
        return false;
    }
    if d[i] != QUOTE || d[i + 1 + k.len()] != QUOTE {
        return false;
    }
    let mut j: usize = 0;
    while j < k.len()
        invariant
            i < d@.len(),
            i + k@.len() + 2 <= d@.len(),
            d@.len() == d.len(),
            k@.len() == k.len(),
            j <= k@.len(),
            forall|m: int| 0 <= m < j ==> d@[i + 1 + m] == k@[m],
        decreases k@.len() - j,
    {
        if d[i + 1 + j] != k[j] {
            assert(d@.subrange(i + 1, i + 1 + k@.len())[j as int] != k@[j as int]);
            return false;
        }
        j = j + 1;
    }
    assert(d@.subrange(i + 1, i + 1 + k@.len()) =~= k@);
    let c = skip_whitespace(d, i + k.len() + 2);
    c < d.len() && d[c] == COLON
}

/// Finds the first declaration of key `k` outside strings and comments.
/// Returns the offset of its opening quote and the offset where its value
/// begins, or `None` when `k` is not declared.
pub fn find_key(d: &[u8], k: &[u8]) -> (r: Option<(usize, usize)>)
    ensures
        r is None ==> first_key(d@, k@) is None,
        r matches Some(p) ==> first_key(d@, k@) == Some(p.0 as int) && p.1 as int == value_start(
            d@,
            k@,
            p.0 as int,
        ),
{
    let mut st = Lex::Code;
    let mut i: usize = 0;
    while i < d.len()
        invariant
            i <= d@.len(),
            st == lex_at(d@, i as int),
            first_key(d@, k@) == first_key_from(d@, k@, i as int),
        decreases d@.len() - i,
    {
        if st == Lex::Code && key_text_matches(d, k, i) {
            let colon = skip_whitespace(d, i + k.len() + 2);
            let v = skip_whitespace(d, colon + 1);
            return Some((i, v));
        }
        st = lex_next(st, d[i]);
        i = i + 1;
    }
    None
}


/// The key under which the extension keeps its environment variables.
pub const ENV_KEY: &'static str = "claudeCode.environmentVariables";

/// The span from the opening quote of the first declaration of `k` to the
/// end of its value, when `k` is declared and its value closes.
pub open spec fn key_span(d: Seq<u8>, k: Seq<u8>) -> Option<(int, int)> {
    match first_key(d, k) {
        Some(i) => match value_end(d, value_start(d, k, i)) {
            Some(e) => Some((i, e)),
            None => None,
        },
        None => None,
    }
}

/// The span as integers.
pub open spec fn span_view(r: Option<(usize, usize)>) -> Option<(int, int)> {
    match r {
        Some(p) => Some((p.0 as int, p.1 as int)),
        None => None,
    }
}

/// Finds `key_span(d, k)`.
pub fn find_key_range(d: &[u8], k: &[u8]) -> (r: Option<(usize, usize)>)
    ensures
        span_view(r) == key_span(d@, k@),
{
    match find_key(d, k) {
        Some((ks, vs)) => match find_value_end(d, vs) {
            Some(ve) => Some((ks, ve)),
            None => None,
        },
        None => None,
    }
}

/// The byte span of the declaration of `claudeCode.environmentVariables`
/// with its value (see `key_span`).
pub fn find_claude_env_range(content: &str) -> (r: Option<(usize, usize)>)
    ensures
        span_view(r) == key_span(encode_utf8(content@), encode_utf8(ENV_KEY@)),
{
    find_key_range(content.as_bytes(), ENV_KEY.as_bytes())
}

proof fn lemma_first_key_from(d: Seq<u8>, k: Seq<u8>, m: int)
    ensures
        first_key_from(d, k, m) matches Some(i) ==> m <= i < d.len() && key_decl_at(d, k, i)
            && forall|j: int| m <= j < i ==> !key_decl_at(d, k, j),
        0 <= m ==> (first_key_from(d, k, m) is None ==> forall|j: int|
            m <= j < d.len() ==> !key_decl_at(d, k, j)),
    decreases d.len() - m,
{
    if 0 <= m < d.len() && !key_decl_at(d, k, m) {
        lemma_first_key_from(d, k, m + 1);
    }
}

proof fn lemma_first_key_from_at(d: Seq<u8>, k: Seq<u8>, m: int, p: int)
    requires
        0 <= m <= p < d.len(),
        key_decl_at(d, k, p),
        forall|j: int| m <= j < p ==> !key_decl_at(d, k, j),
    ensures
        first_key_from(d, k, m) == Some(p),
    decreases p - m,
{
    if m < p {
        lemma_first_key_from_at(d, k, m + 1, p);
    }
}

/// A declaration with none before it is the first.
pub proof fn lemma_first_key_at(d: Seq<u8>, k: Seq<u8>, p: int)
    requires
        0 <= p < d.len(),
        key_decl_at(d, k, p),
        forall|j: int| 0 <= j < p ==> !key_decl_at(d, k, j),
    ensures
        first_key(d, k) == Some(p),
{
    lemma_first_key_from_at(d, k, 0, p);
}

/// A key name without quotes or backslashes.
pub open spec fn plain_key(k: Seq<u8>) -> bool {
    forall|i: int| 0 <= i < k.len() ==> #[trigger] k[i] != QUOTE && k[i] != BACKSLASH
}

/// The context in front of `i` depends on the bytes before `i` alone.
pub proof fn lemma_lex_prefix(d: Seq<u8>, e: Seq<u8>, i: int)
    requires
        0 <= i <= d.len(),
        i <= e.len(),
        d.subrange(0, i) == e.subrange(0, i),
    ensures
        lex_at(d, i) == lex_at(e, i),
    decreases i,
{
    if i > 0 {
        assert(d[i - 1] == d.subrange(0, i)[i - 1]);
        assert(e[i - 1] == e.subrange(0, i)[i - 1]);
        assert(d.subrange(0, i - 1) =~= d.subrange(0, i).subrange(0, i - 1));
        assert(e.subrange(0, i - 1) =~= e.subrange(0, i).subrange(0, i - 1));
        lemma_lex_prefix(d, e, i - 1);
    }
}

/// A string stays open over bytes that are neither quotes nor backslashes.
pub proof fn lemma_lex_str_run(d: Seq<u8>, a: int, b: int)
    requires
        0 <= a <= b <= d.len(),
        lex_at(d, a) == Lex::Str,
        forall|m: int| a <= m < b ==> #[trigger] d[m] != QUOTE && d[m] != BACKSLASH,
    ensures
        lex_at(d, b) == Lex::Str,
    decreases b - a,
{
    if a < b {
        lemma_lex_str_run(d, a, b - 1);
    }
}

/// Code stays code over bytes that are neither quotes nor slashes.
pub proof fn lemma_lex_code_run(d: Seq<u8>, a: int, b: int)
    requires
        0 <= a <= b <= d.len(),
        lex_at(d, a) == Lex::Code,
        forall|m: int| a <= m < b ==> #[trigger] d[m] != QUOTE && d[m] != SLASH,
    ensures
        lex_at(d, b) == Lex::Code,
    decreases b - a,
{
    if a < b {
        lemma_lex_code_run(d, a, b - 1);
    }
}

/// Inside a string or a block comment.
pub open spec fn enclosed(s: Lex) -> bool {
    s == Lex::Str || s == Lex::StrEscape || s == Lex::BlockComment || s == Lex::BlockStar
}

/// Whitespace does not leave a string or a block comment.
pub proof fn lemma_lex_enclosed_run(d: Seq<u8>, a: int, b: int)
    requires
        0 <= a <= b <= d.len(),
        enclosed(lex_at(d, a)),
        forall|m: int| a <= m < b ==> is_ws(#[trigger] d[m]),
    ensures
        enclosed(lex_at(d, b)),
    decreases b - a,
{
    if a < b {
        lemma_lex_enclosed_run(d, a, b - 1);
    }
}

/// Within the quoted name of a declaration the lexer is in a string.
pub proof fn lemma_key_name_is_string(d: Seq<u8>, k: Seq<u8>, j: int, m: int)
    requires
        plain_key(k),
        key_decl_at(d, k, j),
        j < m <= j + k.len() + 1,
    ensures
        lex_at(d, m) == Lex::Str,
{
    assert(lex_at(d, j + 1) == Lex::Str);
    assert forall|t: int| j + 1 <= t < m implies #[trigger] d[t] != QUOTE && d[t] != BACKSLASH by {
        assert(d[t] == d.subrange(j + 1, j + 1 + k.len())[t - j - 1]);
        assert(k[t - j - 1] != QUOTE && k[t - j - 1] != BACKSLASH);
    }
    lemma_lex_str_run(d, j + 1, m);
}

/// Where the value of a declaration starts, the lexer is in code.
pub proof fn lemma_value_start_is_code(d: Seq<u8>, k: Seq<u8>, j: int)
    requires
        plain_key(k),
        key_decl_at(d, k, j),
    ensures
        lex_at(d, value_start(d, k, j)) == Lex::Code,
        value_start(d, k, j) <= d.len(),
        skip_ws(d, key_name_end(k, j)) < value_start(d, k, j),
{
    let x = key_name_end(k, j);
    lemma_key_name_is_string(d, k, j, j + k.len() + 1);
    assert(lex_at(d, x) == Lex::Code);
    let c = skip_ws(d, x);
    lemma_skip_ws(d, x);
    lemma_lex_code_run(d, x, c);
    assert(lex_at(d, c + 1) == Lex::Code);
    lemma_skip_ws(d, c + 1);
    lemma_lex_code_run(d, c + 1, value_start(d, k, j));
}

/// The first declaration is a declaration, and no declaration comes before it.
pub proof fn lemma_first_key(d: Seq<u8>, k: Seq<u8>)
    ensures
        first_key(d, k) matches Some(i) ==> {
            &&& 0 <= i < d.len()
            &&& key_decl_at(d, k, i)
            &&& forall|j: int| 0 <= j < i ==> !key_decl_at(d, k, j)
            &&& i <= value_start(d, k, i) <= d.len()
        },
        first_key(d, k) is None ==> forall|j: int| 0 <= j < d.len() ==> !key_decl_at(d, k, j),
{
    lemma_first_key_from(d, k, 0);
    if let Some(i) = first_key(d, k) {
        let c = skip_ws(d, key_name_end(k, i));
        lemma_skip_ws(d, key_name_end(k, i));
        lemma_skip_ws(d, c + 1);
    }
}

} // verus!
