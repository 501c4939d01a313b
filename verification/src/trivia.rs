//! Comments and attributes attached to a syntax node.
use std::ops::Range;
use vstd::prelude::*;
use vstd::string::*;

use crate::lexer::{lex, tokenize, Tok, TokKind};

verus! {

/// Information about comments, attributes, and whitespace attached to a syntax
/// node.
#[derive(Debug, PartialEq, Eq)]
pub struct AttachedTrivia {
    pub leading: Range<usize>,
    pub trailing: Range<usize>,
}

/// Whitespace that does not end a line.
pub open spec fn inline_ws(c: u8) -> bool {
    c == 9 || c == 11 || c == 12 || c == 13 || c == 32
}

/// First position at or after `p` that is not whitespace within the line.
pub open spec fn skip_inline_ws(b: Seq<u8>, p: int) -> int
    decreases b.len() - p,
{
    if 0 <= p < b.len() && inline_ws(b[p]) {
        skip_inline_ws(b, p + 1)
    } else {
        p
    }
}

/// End of a line comment that starts at `p`: the next carriage return or
/// newline, or the end.
pub open spec fn line_comment_end(b: Seq<u8>, p: int) -> int
    decreases b.len() - p,
{
    if p < 0 || p >= b.len() || b[p] == 10 || b[p] == 13 {
        p
    } else {
        line_comment_end(b, p + 1)
    }
}

/// End of a block comment whose body continues at `p` at nesting `depth`.
pub open spec fn block_comment_end(b: Seq<u8>, p: int, depth: nat) -> int
    decreases b.len() - p,
{
    if p < 0 || p >= b.len() || depth == 0 {
        p
    } else if b[p] == 47 && p + 1 < b.len() && b[p + 1] == 42 {
        block_comment_end(b, p + 2, depth + 1)
    } else if b[p] == 42 && p + 1 < b.len() && b[p + 1] == 47 {
        block_comment_end(b, p + 2, (depth - 1) as nat)
    } else {
        block_comment_end(b, p + 1, depth)
    }
}

/// End of the comments that follow position `p` on its line, or `p`.
pub open spec fn trailing_end(b: Seq<u8>, p: int) -> int
    decreases b.len() - p,
{
    let q = skip_inline_ws(b, p);
    if 0 <= q && q + 1 < b.len() && b[q] == 47 && b[q + 1] == 47 {
        line_comment_end(b, q + 2)
    } else if 0 <= q && q + 1 < b.len() && b[q] == 47 && b[q + 1] == 42 {
        let e = block_comment_end(b, q + 2, 1);
        if p < e <= b.len() {
            trailing_end(b, e)
        } else {
            p
        }
    } else {
        p
    }
}

proof fn lemma_skip_inline_ws(b: Seq<u8>, p: int)
    ensures
        p <= skip_inline_ws(b, p),
        0 <= p <= b.len() ==> skip_inline_ws(b, p) <= b.len(),
    decreases b.len() - p,
{
    if 0 <= p < b.len() && inline_ws(b[p]) {
        lemma_skip_inline_ws(b, p + 1);
    }
}

proof fn lemma_line_comment_end(b: Seq<u8>, p: int)
    ensures
        p <= line_comment_end(b, p),
        0 <= p <= b.len() ==> line_comment_end(b, p) <= b.len(),
    decreases b.len() - p,
{
    if !(p < 0 || p >= b.len() || b[p] == 10 || b[p] == 13) {
        lemma_line_comment_end(b, p + 1);
    }
}

proof fn lemma_block_comment_end(b: Seq<u8>, p: int, depth: nat)
    ensures
        p <= block_comment_end(b, p, depth),
        0 <= p <= b.len() ==> block_comment_end(b, p, depth) <= b.len(),
    decreases b.len() - p,
{
    if !(p < 0 || p >= b.len() || depth == 0) {
        if b[p] == 47 && p + 1 < b.len() && b[p + 1] == 42 {
            lemma_block_comment_end(b, p + 2, depth + 1);
        } else if b[p] == 42 && p + 1 < b.len() && b[p + 1] == 47 {
            lemma_block_comment_end(b, p + 2, (depth - 1) as nat);
        } else {
            lemma_block_comment_end(b, p + 1, depth);
        }
    }
}

proof fn lemma_trailing_end(b: Seq<u8>, p: int)
    requires
        0 <= p <= b.len(),
    ensures
        p <= trailing_end(b, p) <= b.len(),
    decreases b.len() - p,
{
    lemma_skip_inline_ws(b, p);
    let q = skip_inline_ws(b, p);
    if 0 <= q && q + 1 < b.len() && b[q] == 47 && b[q + 1] == 47 {
        lemma_line_comment_end(b, q + 2);
    } else if 0 <= q && q + 1 < b.len() && b[q] == 47 && b[q + 1] == 42 {
        lemma_block_comment_end(b, q + 2, 1);
        let e = block_comment_end(b, q + 2, 1);
        if p < e <= b.len() {
            lemma_trailing_end(b, e);
        }
    }
}

/// Determine the logical source range occupied by trailing trivia attached to
/// a node: the comments that follow `node_range.end` on the same line.
/// End-of-line comments belong to the preceding node; whitespace after the
/// newline does not.
pub fn trailing_trivia(source: &str, node_range: Range<usize>) -> (r: Range<usize>)
    requires
        node_range.end <= source.spec_bytes().len(),
    ensures
        r.start == node_range.end,
        r.end == trailing_end(source.spec_bytes(), node_range.end as int),
        r.start <= r.end <= source.spec_bytes().len(),
{
    let b = source.as_bytes();
    let n = b.len();
    let mut p = node_range.end;
    proof {
        lemma_trailing_end(b@, p as int);
    }
    loop
        invariant
            b@ == source.spec_bytes(),
            n == b@.len(),
            node_range.end <= p <= n,
            trailing_end(b@, p as int) == trailing_end(b@, node_range.end as int),
        decreases n - p,
    {
        let mut q = p;
        while q < n && (b[q] == 9 || b[q] == 11 || b[q] == 12 || b[q] == 13 || b[q] == 32)
            invariant
                p <= q <= n == b@.len(),
                skip_inline_ws(b@, q as int) == skip_inline_ws(b@, p as int),
            decreases n - q,
        {
            q = q + 1;
        }
        if q < n && n - q >= 2 && b[q] == 47 && b[q + 1] == 47 {
            let mut e = q + 2;
            while e < n && b[e] != 10 && b[e] != 13
                invariant
                    q + 2 <= e <= n == b@.len(),
                    line_comment_end(b@, e as int) == line_comment_end(b@, q + 2),
                decreases n - e,
            {
                e = e + 1;
            }
            proof {
                assert(skip_inline_ws(b@, q as int) == q);
                assert(line_comment_end(b@, e as int) == e);
            }
            return Range { start: node_range.end, end: e };
        }
        if q < n && n - q >= 2 && b[q] == 47 && b[q + 1] == 42 {
            let mut e = q + 2;
            let mut depth: usize = 1;
            while e < n && depth > 0
                invariant
                    q + 2 <= e <= n == b@.len(),
                    depth <= e,
                    block_comment_end(b@, e as int, depth as nat) == block_comment_end(
                        b@,
                        q + 2,
                        1,
                    ),
                decreases n - e,
            {
                if b[e] == 47 && e + 1 < n && b[e + 1] == 42 {
                    depth = depth + 1;
                    e = e + 2;
                } else if b[e] == 42 && e + 1 < n && b[e + 1] == 47 {
                    depth = depth - 1;
                    e = e + 2;
                } else {
                    e = e + 1;
                }
            }
            proof {
                assert(skip_inline_ws(b@, q as int) == q);
                assert(block_comment_end(b@, e as int, depth as nat) == e);
            }
            if e > p {
                p = e;
                continue ;
            }
        }
        proof {
            assert(skip_inline_ws(b@, q as int) == q);
        }
        return Range { start: node_range.end, end: p };
    }
}

/// A comment token, or one of the punctuation bytes `#`, `!`, `[`, `]` that
/// attributes are made of.
pub open spec fn trivia_tok(b: Seq<u8>, t: Tok) -> bool {
    t.kind == TokKind::LineComment || t.kind == TokKind::BlockComment || (t.kind == TokKind::Punct
        && (b[t.start as int] == 35 || b[t.start as int] == 33 || b[t.start as int] == 91
        || b[t.start as int] == 93))
}

/// A newline byte lies in `b[from..to]`.
pub open spec fn has_newline(b: Seq<u8>, from: int, to: int) -> bool {
    exists|p: int| from <= p < to && #[trigger] b[p] == 10
}

fn is_trivia_tok(b: &[u8], t: Tok) -> (r: bool)
    requires
        t.start < b@.len(),
    ensures
        r == trivia_tok(b@, t),
{
    t.kind == TokKind::LineComment || t.kind == TokKind::BlockComment || (t.kind == TokKind::Punct
        && (b[t.start] == 35 || b[t.start] == 33 || b[t.start] == 91 || b[t.start] == 93))
}

/// Index of the first token of `t` from `c` on that does not start before `p`.
pub open spec fn first_token_from(t: Seq<Tok>, c: int, p: int) -> int
    decreases t.len() - c,
{
    if 0 <= c < t.len() && t[c].start < p {
        first_token_from(t, c + 1, p)
    } else {
        c
    }
}

/// Token `t` is the punctuation byte `c`.
pub open spec fn punct_tok(b: Seq<u8>, t: Tok, c: u8) -> bool {
    t.kind == TokKind::Punct && b[t.start as int] == c
}

/// Walks back from token `k` over comments and attribute tokens (`#`, `!`,
/// `[`, `]` and what the brackets enclose, `depth` of them still open) and
/// gives the start of the earliest `#` or comment passed; a comment that ends
/// the line of earlier code stops the walk.
pub open spec fn leading_walk(b: Seq<u8>, t: Seq<Tok>, k: int, depth: nat, start: int) -> int
    decreases k,
{
    if k <= 0 || k > t.len() {
        start
    } else {
        let tk = t[k - 1];
        if depth > 0 {
            if punct_tok(b, tk, 91) {
                leading_walk(b, t, k - 1, (depth - 1) as nat, start)
            } else if punct_tok(b, tk, 93) {
                leading_walk(b, t, k - 1, depth + 1, start)
            } else {
                leading_walk(b, t, k - 1, depth, start)
            }
        } else if punct_tok(b, tk, 93) {
            leading_walk(b, t, k - 1, 1, start)
        } else if tk.kind == TokKind::LineComment || tk.kind == TokKind::BlockComment {
            if k >= 2 && !trivia_tok(b, t[k - 2]) && !has_newline(b, t[k - 2].end as int, tk.start as int) {
                start
            } else {
                leading_walk(
                    b,
                    t,
                    k - 1,
                    depth,
                    if tk.start <= start {
                        tk.start as int
                    } else {
                        start
                    },
                )
            }
        } else if punct_tok(b, tk, 35) || punct_tok(b, tk, 33) {
            leading_walk(
                b,
                t,
                k - 1,
                depth,
                if punct_tok(b, tk, 35) && tk.start <= start {
                    tk.start as int
                } else {
                    start
                },
            )
        } else {
            start
        }
    }
}

/// Start of the leading trivia of a node whose syntax starts at byte `p`: the
/// walk back from the token that starts there, or `p` when no token does.
pub open spec fn leading_start(b: Seq<u8>, p: int) -> int {
    let t = lex(b, 0);
    let c = first_token_from(t, 0, p);
    if c >= t.len() || t[c].start != p {
        p
    } else {
        leading_walk(b, t, c, 0, p)
    }
}

/// A comment (`//` or `/*`) or an outer attribute (`#`) starts at `p`.
pub open spec fn starts_comment_or_attribute(b: Seq<u8>, p: int) -> bool {
    0 <= p < b.len() && (b[p] == 35 || (p + 1 < b.len() && b[p] == 47 && (b[p + 1] == 47 || b[p
        + 1] == 42)))
}

/// Determine the logical source range occupied by leading trivia attached to a
/// node whose syntax starts at `node_range.start`: the outer attributes and the
/// comments (doc comments or not) right before it. Comments that end the line
/// of earlier code belong to that code instead.
pub fn leading_trivia(source: &str, node_range: Range<usize>) -> (r: Range<usize>)
    requires
        node_range.start <= source.spec_bytes().len(),
    ensures
        r.end == node_range.start,
        r.start <= r.end,
        r.start == r.end || starts_comment_or_attribute(source.spec_bytes(), r.start as int),
        r.start == leading_start(source.spec_bytes(), node_range.start as int),
{
    let b = source.as_bytes();
    let toks = tokenize(b);
    let n = toks.len();
    let mut c: usize = 0;
    while c < n && toks[c].start < node_range.start
        invariant
            n == toks@.len(),
            c <= n,
            crate::lexer::tokens_wf(b@, toks@),
            toks@ == lex(b@, 0),
            b@ == source.spec_bytes(),
            first_token_from(toks@, c as int, node_range.start as int) == first_token_from(
                toks@,
                0,
                node_range.start as int,
            ),
        decreases n - c,
    {
        c = c + 1;
    }
    if c >= n || toks[c].start != node_range.start {
        return Range { start: node_range.start, end: node_range.start };
    }
    // Walk back over comments and attribute tokens (`#`, `!`, `[`, `]` and what the brackets enclose).
    let mut k = c;
    let mut depth: usize = 0;
    let mut start = node_range.start;
    while k > 0
        invariant
            n == toks@.len(),
            k <= c < n,
            depth <= c - k,
            crate::lexer::tokens_wf(b@, toks@),
            start <= node_range.start,
            start == node_range.start || starts_comment_or_attribute(b@, start as int),
            toks@ == lex(b@, 0),
            b@ == source.spec_bytes(),
            c == first_token_from(toks@, 0, node_range.start as int),
            toks@[c as int].start == node_range.start,
            leading_walk(b@, toks@, k as int, depth as nat, start as int) == leading_start(
                b@,
                node_range.start as int,
            ),
        ensures
            start as int == leading_start(b@, node_range.start as int),
            start <= node_range.start,
            start == node_range.start || starts_comment_or_attribute(b@, start as int),
        decreases k,
    {
        let t = toks[k - 1];
        assert(crate::lexer::comment_shape(b@, toks@[k - 1]));
        if depth > 0 {
            if t.kind == TokKind::Punct && b[t.start] == 91 {
                depth = depth - 1;
            } else if t.kind == TokKind::Punct && b[t.start] == 93 {
                depth = depth + 1;
            }
            k = k - 1;
            continue ;
        }
        if t.kind == TokKind::Punct && b[t.start] == 93 {
            depth = 1;
            k = k - 1;
            continue ;
        }
        if t.kind == TokKind::LineComment || t.kind == TokKind::BlockComment {
            // A comment on the line of earlier code ends that code's line.
            if k >= 2 && !is_trivia_tok(b, toks[k - 2]) && !newline_between(b, toks[k - 2].end, t.start) {
                break ;
            }
            if t.start <= start {
                start = t.start;
            }
            k = k - 1;
            continue ;
        }
        if t.kind == TokKind::Punct && (b[t.start] == 35 || b[t.start] == 33) {
            if b[t.start] == 35 && t.start <= start {
                start = t.start;
            }
            k = k - 1;
            continue ;
        }
        break ;
    }
    Range { start, end: node_range.start }
}

fn newline_between(b: &[u8], from: usize, to: usize) -> (r: bool)
    requires
        to <= b@.len(),
    ensures
        r == has_newline(b@, from as int, to as int),
{
    let mut p = from;
    while p < to
        invariant
            to <= b@.len(),
            from <= p,
            forall|x: int| from <= x < p ==> #[trigger] b@[x] != 10,
        decreases to - p,
    {
        if b[p] == 10 {
            return true;
        }
        p = p + 1;
    }
    false
}

} // verus!
