//! A tolerant tokenizer for Rust source: it never fails, and every byte that is
//! not ASCII whitespace belongs to exactly one token.
use vstd::prelude::*;

verus! {

/// Coarse token classes; the parser reads punctuation bytes from the source.
#[derive(Debug, Clone, Copy, PartialEq, Eq, Structural)]
pub enum TokKind {
    Ident,
    Lifetime,
    Literal,
    LineComment,
    BlockComment,
    Punct,
    /// `=>`
    FatArrow,
    /// `::`
    PathSep,
}

/// A token: its class and its byte range `start..end` in the source.
#[derive(Debug, Clone, Copy, PartialEq, Eq, Structural)]
pub struct Tok {
    pub kind: TokKind,
    pub start: usize,
    pub end: usize,
}

/// The bytes that separate tokens: tab, newline, vertical tab, form feed,
/// carriage return and space.
pub open spec fn ws_byte(c: u8) -> bool {
    c == 9 || c == 10 || c == 11 || c == 12 || c == 13 || c == 32
}

/// `b[from..to]` holds whitespace bytes only.
pub open spec fn gap_ws(b: Seq<u8>, from: int, to: int) -> bool {
    forall|p: int| from <= p < to ==> ws_byte(#[trigger] b[p])
}

/// A comment token starts with `//` (a line comment) or `/*` (a block comment).
pub open spec fn comment_shape(b: Seq<u8>, t: Tok) -> bool {
    &&& t.kind == TokKind::LineComment ==> t.start + 2 <= t.end && b[t.start as int] == 47 && b[t.start
        + 1] == 47
    &&& t.kind == TokKind::BlockComment ==> t.start + 2 <= t.end && b[t.start as int] == 47 && b[t.start
        + 1] == 42
}

/// Tokens are non-empty, lie within the text, come in order, and only
/// whitespace separates neighbours; comment tokens start as comments do.
pub open spec fn tokens_wf(b: Seq<u8>, t: Seq<Tok>) -> bool {
    &&& forall|k: int| 0 <= k < t.len() ==> #[trigger] t[k].start < t[k].end <= b.len()
    &&& forall|k: int| 0 <= k < t.len() ==> comment_shape(b, #[trigger] t[k])
    &&& forall|k: int|
        0 < k < t.len() ==> #[trigger] t[k].start >= t[k - 1].end && gap_ws(
            b,
            t[k - 1].end as int,
            t[k].start as int,
        )
}

pub open spec fn ident_byte(c: u8) -> bool {
    (97 <= c <= 122) || (65 <= c <= 90) || (48 <= c <= 57) || c == 95 || c >= 128
}

/// End of a line comment's text from `q`: the next carriage return or newline, or the end.
pub open spec fn line_end(b: Seq<u8>, q: int) -> int
    decreases b.len() - q,
{
    if q < 0 || q >= b.len() || b[q] == 10 || b[q] == 13 {
        q
    } else {
        line_end(b, q + 1)
    }
}

/// End of a quoted literal whose body continues at `q`: just past the closing
/// `quote`, a backslash escaping the next byte; the end when unclosed.
pub open spec fn quoted_end(b: Seq<u8>, q: int, quote: u8) -> int
    decreases b.len() - q,
{
    if q < 0 || q >= b.len() {
        b.len() as int
    } else if b[q] == 92 {
        if b.len() - q >= 2 {
            quoted_end(b, q + 2, quote)
        } else {
            b.len() as int
        }
    } else if b[q] == quote {
        q + 1
    } else {
        quoted_end(b, q + 1, quote)
    }
}

/// End of the run of UTF-8 continuation bytes from `c`.
pub open spec fn continuation_end(b: Seq<u8>, c: int) -> int
    decreases b.len() - c,
{
    if 0 <= c < b.len() && 128 <= b[c] && b[c] < 192 {
        continuation_end(b, c + 1)
    } else {
        c
    }
}

/// End of a number's text from `q`: identifier bytes, and `.` before a digit.
pub open spec fn number_end(b: Seq<u8>, q: int) -> int
    decreases b.len() - q,
{
    if 0 <= q < b.len() && (ident_byte(b[q]) || (b[q] == 46 && q + 1 < b.len() && 48 <= b[q + 1]
        <= 57)) {
        number_end(b, q + 1)
    } else {
        q
    }
}

/// A character literal or a lifetime that starts with the quote at `i`.
pub open spec fn quote_token(b: Seq<u8>, i: int) -> (TokKind, int) {
    if i + 1 < b.len() && b[i + 1] == 92 {
        (TokKind::Literal, quoted_end(b, i + 1, 39))
    } else if i + 1 < b.len() && continuation_end(b, i + 2) < b.len() && b[continuation_end(
        b,
        i + 2,
    )] == 39 {
        (TokKind::Literal, continuation_end(b, i + 2) + 1)
    } else {
        (TokKind::Lifetime, ident_end(b, i + 1))
    }
}

/// A raw string whose hashes start at `i`, if a quote follows them.
pub open spec fn raw_token(b: Seq<u8>, i: int) -> Option<int> {
    if hash_end(b, i) >= b.len() || b[hash_end(b, i)] != 34 {
        None
    } else {
        Some(raw_close(b, hash_end(b, i) + 1, hash_end(b, i) - i))
    }
}

/// The class and the end of the token that starts at `i`.
pub open spec fn token_at(b: Seq<u8>, i: int) -> (TokKind, int) {
    let c = b[i];
    let next = if i + 1 < b.len() {
        b[i + 1]
    } else {
        0u8
    };
    if c == 47 && next == 47 {
        (TokKind::LineComment, line_end(b, i + 1))
    } else if c == 47 && next == 42 {
        (TokKind::BlockComment, crate::trivia::block_comment_end(b, i + 2, 1))
    } else if c == 34 {
        (TokKind::Literal, quoted_end(b, i + 1, 34))
    } else if c == 39 {
        quote_token(b, i)
    } else if (c == 98 || c == 99) && next == 34 {
        (TokKind::Literal, quoted_end(b, i + 2, 34))
    } else if c == 98 && next == 39 {
        (TokKind::Literal, quoted_end(b, i + 2, 39))
    } else if c == 114 && (next == 34 || next == 35) && raw_token(b, i + 1) is Some {
        (TokKind::Literal, raw_token(b, i + 1)->0)
    } else if (c == 98 || c == 99) && next == 114 && i + 2 < b.len() && (b[i + 2] == 34 || b[i
        + 2] == 35) && raw_token(b, i + 2) is Some {
        (TokKind::Literal, raw_token(b, i + 2)->0)
    } else if c == 114 && next == 35 && i + 2 < b.len() && ident_start(b[i + 2]) {
        (TokKind::Ident, ident_end(b, i + 2))
    } else if ident_start(c) {
        (TokKind::Ident, ident_end(b, i + 1))
    } else if 48 <= c <= 57 {
        (TokKind::Literal, number_end(b, i + 1))
    } else if c == 61 && next == 62 {
        (TokKind::FatArrow, i + 2)
    } else if c == 58 && next == 58 {
        (TokKind::PathSep, i + 2)
    } else {
        (TokKind::Punct, i + 1)
    }
}

/// The tokens of `b` from `pos` on: whitespace bytes are passed over and
/// every other byte starts the token that `token_at` reads there.
pub open spec fn lex(b: Seq<u8>, pos: int) -> Seq<Tok>
    decreases b.len() - pos,
{
    if pos < 0 || pos >= b.len() {
        Seq::empty()
    } else if ws_byte(b[pos]) {
        lex(b, pos + 1)
    } else if token_at(b, pos).1 <= pos || token_at(b, pos).1 > b.len() {
        Seq::empty()
    } else {
        seq![Tok { kind: token_at(b, pos).0, start: pos as usize, end: token_at(b, pos).1 as usize }]
            + lex(b, token_at(b, pos).1)
    }
}

fn is_ws_byte(c: u8) -> (r: bool)
    ensures
        r == ws_byte(c),
{
    c == 9 || c == 10 || c == 11 || c == 12 || c == 13 || c == 32
}

fn is_ident_byte(c: u8) -> (r: bool)
    ensures
        r == ident_byte(c),
{
    (97 <= c && c <= 122) || (65 <= c && c <= 90) || (48 <= c && c <= 57) || c == 95 || c >= 128
}

/// A byte that can start an identifier: a letter, `_`, or a non-ASCII byte.
pub open spec fn ident_start(c: u8) -> bool {
    (97 <= c <= 122) || (65 <= c <= 90) || c == 95 || c >= 128
}

/// End of the run of identifier bytes that starts at `i`.
pub open spec fn ident_end(b: Seq<u8>, i: int) -> int
    decreases b.len() - i,
{
    if 0 <= i < b.len() && ident_byte(b[i]) {
        ident_end(b, i + 1)
    } else {
        i
    }
}

/// End of the run of `#` bytes that starts at `i`.
pub open spec fn hash_end(b: Seq<u8>, i: int) -> int
    decreases b.len() - i,
{
    if 0 <= i < b.len() && b[i] == 35 {
        hash_end(b, i + 1)
    } else {
        i
    }
}

/// `b[p..e]` lies within `b` and holds `#` bytes only.
pub open spec fn all_hash(b: Seq<u8>, p: int, e: int) -> bool {
    e <= b.len() && forall|x: int| p <= x < e ==> #[trigger] b[x] == 35
}

/// End of a raw string whose body continues at `q` and that closes with `"`
/// followed by `h` hashes: just past the closing hashes, or the end when unclosed.
pub open spec fn raw_close(b: Seq<u8>, q: int, h: int) -> int
    decreases b.len() - q,
{
    if q < 0 || q >= b.len() {
        b.len() as int
    } else if b[q] == 34 && all_hash(b, q + 1, q + 1 + h) {
        q + 1 + h
    } else {
        raw_close(b, q + 1, h)
    }
}

fn is_ident_start(c: u8) -> (r: bool)
    ensures
        r == ident_start(c),
{
    (97 <= c && c <= 122) || (65 <= c && c <= 90) || c == 95 || c >= 128
}

fn scan_ident(b: &[u8], i: usize) -> (q: usize)
    requires
        i <= b@.len(),
    ensures
        i <= q <= b@.len(),
        q == ident_end(b@, i as int),
{
    let mut q = i;
    while q < b.len() && is_ident_byte(b[q])
        invariant
            i <= q <= b@.len(),
            ident_end(b@, q as int) == ident_end(b@, i as int),
        decreases b@.len() - q,
    {
        q = q + 1;
    }
    q
}

fn scan_line_comment(b: &[u8], i: usize) -> (q: usize)
    requires
        i + 1 < b@.len(),
        b@[i + 1] == 47,
    ensures
        i + 2 <= q <= b@.len(),
        q == line_end(b@, i + 1),
{
    let n = b.len();
    let mut q = i + 1;
    while q < n && b[q] != 10 && b[q] != 13
        invariant
            i < q <= n == b@.len(),
            line_end(b@, q as int) == line_end(b@, i + 1),
        decreases b@.len() - q,
    {
        q = q + 1;
    }
    q
}

/// A block comment, nested ones included; it runs to the end when unclosed.
fn scan_block_comment(b: &[u8], i: usize) -> (q: usize)
    requires
        i + 2 <= b@.len(),
    ensures
        i + 2 <= q <= b@.len(),
        q == crate::trivia::block_comment_end(b@, i + 2, 1),
{
    let n = b.len();
    let mut depth: usize = 1;
    let mut q = i + 2;
    while q < n && depth > 0
        invariant
            i + 2 <= q <= n == b@.len(),
            depth <= q,
            crate::trivia::block_comment_end(b@, q as int, depth as nat)
                == crate::trivia::block_comment_end(b@, i + 2, 1),
        decreases n - q,
    {
        if b[q] == 47 && q + 1 < n && b[q + 1] == 42 {
            depth = depth + 1;
            q = q + 2;
        } else if b[q] == 42 && q + 1 < n && b[q + 1] == 47 {
            depth = depth - 1;
            q = q + 2;
        } else {
            q = q + 1;
        }
    }
    q
}

/// A quoted literal whose opening quote is at `i`: backslash escapes the next
/// byte; it runs to the end when unclosed.
fn scan_quoted(b: &[u8], i: usize, quote: u8) -> (q: usize)
    requires
        i < b@.len(),
    ensures
        i < q <= b@.len(),
        q == quoted_end(b@, i + 1, quote),
{
    let n = b.len();
    let mut q = i + 1;
    while q < n
        invariant
            i < q <= n == b@.len(),
            quoted_end(b@, q as int, quote) == quoted_end(b@, i + 1, quote),
        decreases n - q,
    {
        if b[q] == 92 {
            if n - q >= 2 {
                q = q + 2;
            } else {
                q = n;
            }
        } else if b[q] == quote {
            return q + 1;
        } else {
            q = q + 1;
        }
    }
    q
}

/// A raw string whose hashes start at `i` (just after the `r`): `#`* `"` ... `"` `#`*.
/// Returns `None` when no quote follows the hashes.
fn scan_raw_string(b: &[u8], i: usize) -> (r: Option<usize>)
    requires
        i <= b@.len(),
    ensures
        r is None <==> (hash_end(b@, i as int) >= b@.len() || b@[hash_end(b@, i as int)] != 34),
        r matches Some(q) ==> i < q <= b@.len() && q == raw_close(
            b@,
            hash_end(b@, i as int) + 1,
            hash_end(b@, i as int) - i,
        ),
{
    let n = b.len();
    let mut h = i;
    while h < n && b[h] == 35
        invariant
            i <= h <= n == b@.len(),
            hash_end(b@, h as int) == hash_end(b@, i as int),
        decreases n - h,
    {
        h = h + 1;
    }
    if h >= n || b[h] != 34 {
        return None;
    }
    assert(hash_end(b@, h as int) == h);
    let hashes = h - i;
    let mut q = h + 1;
    while q < n
        invariant
            i < q <= n == b@.len(),
            h < q,
            h < n,
            b@[h as int] == 34,
            hashes == h - i,
            h == hash_end(b@, i as int),
            raw_close(b@, q as int, hashes as int) == raw_close(b@, h + 1, hashes as int),
        decreases n - q,
    {
        if b[q] == 34 {
            let mut k: usize = 0;
            let mut p = q + 1;
            while k < hashes && p < n && b[p] == 35
                invariant
                    q < n == b@.len(),
                    p == q + 1 + k,
                    p <= n,
                    k <= hashes,
                    forall|x: int| q + 1 <= x < p ==> #[trigger] b@[x] == 35,
                decreases hashes - k,
            {
                k = k + 1;
                p = p + 1;
            }
            if k == hashes {
                assert(all_hash(b@, q + 1, q + 1 + hashes));
                return Some(p);
            }
            assert(!all_hash(b@, q + 1, q + 1 + hashes)) by {
                if p >= n {
                } else {
                    assert(b@[p as int] != 35);
                }
            }
        }
        q = q + 1;
    }
    Some(q)
}

/// A character literal or a lifetime, starting at the quote at `i`.
fn scan_quote(b: &[u8], i: usize) -> (r: (TokKind, usize))
    requires
        i < b@.len(),
    ensures
        i < r.1 <= b@.len(),
        r.0 == TokKind::Literal || r.0 == TokKind::Lifetime,
        (r.0, r.1 as int) == quote_token(b@, i as int),
{
    let n = b.len();
    if i + 1 < n && b[i + 1] == 92 {
        return (TokKind::Literal, scan_quoted(b, i, 39));
    }
    if i + 1 < n {
        // One character (with its continuation bytes) and a closing quote.
        let mut c = i + 2;
        while c < n && 128 <= b[c] && b[c] < 192
            invariant
                i + 2 <= c <= n == b@.len(),
                continuation_end(b@, c as int) == continuation_end(b@, i + 2),
            decreases n - c,
        {
            c = c + 1;
        }
        if c < n && b[c] == 39 {
            return (TokKind::Literal, c + 1);
        }
    }
    (TokKind::Lifetime, scan_ident(b, i + 1))
}

/// A number: digits, letters and underscores, and a `.` followed by a digit.
fn scan_number(b: &[u8], i: usize) -> (q: usize)
    requires
        i < b@.len(),
    ensures
        i < q <= b@.len(),
        q == number_end(b@, i + 1),
{
    let n = b.len();
    let mut q = i + 1;
    while q < n && (is_ident_byte(b[q]) || (b[q] == 46 && q + 1 < n && 48 <= b[q + 1] && b[q
        + 1] <= 57))
        invariant
            i < q <= n == b@.len(),
            number_end(b@, q as int) == number_end(b@, i + 1),
        decreases n - q,
    {
        q = q + 1;
    }
    q
}

/// The token that starts at `i`, which holds no whitespace byte.
fn scan_token(b: &[u8], i: usize) -> (r: (TokKind, usize))
    requires
        i < b@.len(),
    ensures
        i < r.1 <= b@.len(),
        comment_shape(b@, Tok { kind: r.0, start: i, end: r.1 }),
        (r.0, r.1 as int) == token_at(b@, i as int),
{
    let n = b.len();
    let c = b[i];
    let next = if i + 1 < n {
        b[i + 1]
    } else {
        0
    };
    if c == 47 && next == 47 {
        return (TokKind::LineComment, scan_line_comment(b, i));
    }
    if c == 47 && next == 42 {
        return (TokKind::BlockComment, scan_block_comment(b, i));
    }
    if c == 34 {
        return (TokKind::Literal, scan_quoted(b, i, 34));
    }
    if c == 39 {
        return scan_quote(b, i);
    }
    if (c == 98 || c == 99) && next == 34 {
        return (TokKind::Literal, scan_quoted(b, i + 1, 34));
    }
    if c == 98 && next == 39 {
        return (TokKind::Literal, scan_quoted(b, i + 1, 39));
    }
    if c == 114 && (next == 34 || next == 35) {
        match scan_raw_string(b, i + 1) {
            Some(q) => {
                return (TokKind::Literal, q);
            },
            None => {},
        }
    }
    if (c == 98 || c == 99) && next == 114 && i + 2 < n && (b[i + 2] == 34 || b[i + 2] == 35) {
        match scan_raw_string(b, i + 2) {
            Some(q) => {
                return (TokKind::Literal, q);
            },
            None => {},
        }
    }
    if c == 114 && next == 35 && i + 2 < n && is_ident_start(b[i + 2]) {
        return (TokKind::Ident, scan_ident(b, i + 2));
    }
    if is_ident_start(c) {
        return (TokKind::Ident, scan_ident(b, i + 1));
    }
    if 48 <= c && c <= 57 {
        return (TokKind::Literal, scan_number(b, i));
    }
    if c == 61 && next == 62 {
        return (TokKind::FatArrow, i + 2);
    }
    if c == 58 && next == 58 {
        return (TokKind::PathSep, i + 2);
    }
    (TokKind::Punct, i + 1)
}

/// Splits the text into tokens; whitespace between them is dropped. Every
/// byte that is not whitespace belongs to a token.
pub fn tokenize(b: &[u8]) -> (t: Vec<Tok>)
    ensures
        tokens_wf(b@, t@),
        t@ == lex(b@, 0),
        t@.len() == 0 ==> gap_ws(b@, 0, b@.len() as int),
        t@.len() > 0 ==> gap_ws(b@, 0, t@[0].start as int) && gap_ws(
            b@,
            t@.last().end as int,
            b@.len() as int,
        ),
{
    let n = b.len();
    let mut toks: Vec<Tok> = Vec::new();
    let mut pos: usize = 0;
    let mut last_end: usize = 0;
    while pos < n
        invariant
            n == b@.len(),
            last_end <= pos <= n,
            tokens_wf(b@, toks@),
            toks@.len() > 0 ==> toks@.last().end == last_end,
            toks@.len() == 0 ==> last_end == 0,
            toks@ + lex(b@, pos as int) == lex(b@, 0),
            toks@.len() > 0 ==> gap_ws(b@, 0, toks@[0].start as int),
            forall|p: int| last_end <= p < pos ==> ws_byte(#[trigger] b@[p]),
        decreases n - pos,
    {
        if is_ws_byte(b[pos]) {
            pos = pos + 1;
        } else {
            let (kind, end) = scan_token(b, pos);
            let ghost old_toks = toks@;
            toks.push(Tok { kind, start: pos, end });
            proof {
                let t = toks@;
                assert forall|k: int| 0 <= k < t.len() implies #[trigger] t[k].start < t[k].end
                    <= b@.len() by {
                    if k < old_toks.len() {
                        assert(t[k] == old_toks[k]);
                    }
                }
                assert forall|k: int| 0 <= k < t.len() implies comment_shape(b@, #[trigger] t[k]) by {
                    if k < old_toks.len() {
                        assert(t[k] == old_toks[k]);
                    }
                }
                assert forall|k: int| 0 < k < t.len() implies #[trigger] t[k].start >= t[k
                    - 1].end && gap_ws(b@, t[k - 1].end as int, t[k].start as int) by {
                    assert(t[k - 1] == old_toks[k - 1]);
                    if k < old_toks.len() {
                        assert(t[k] == old_toks[k]);
                    }
                }
            }
            last_end = end;
            pos = end;
        }
    }
    toks
}

} // verus!
