//! The syntax facts that the spacing rules read: sibling nodes of a container
//! and the boundaries between them.
use std::ops::Range;
use vstd::prelude::*;
use vstd::string::*;
use vstd::utf8::is_ascii_chars;

use crate::errors::ParseError;
use crate::lexer::{gap_ws, lex, tokenize, tokens_wf, Tok, TokKind};
use crate::text::line_start;

verus! {

/// A syntax container whose direct children may participate in spacing rules.
#[derive(Debug, Clone, Copy, PartialEq, Eq, Structural)]
pub enum ContainerKind {
    /// A file, a module body, or the body of an `impl`, `trait` or `extern` block.
    Items,
    /// The statements of a block.
    Statements,
    /// The arms of a `match`.
    MatchArms,
    Other,
}

/// A coarse classification used by spacing rules.
#[derive(Debug, Clone, Copy, PartialEq, Eq, Structural)]
pub enum NodeKind {
    /// An item with a braced body: `fn`, `struct`, `enum`, `union`, `trait`, `impl`,
    /// `extern` block, `macro_rules!`.
    BlockBodiedItem,
    LetStatement,
    /// A statement made of a block-like expression: `if`, `match`, `loop`, `while`,
    /// `for`, `unsafe` or a plain block.
    BlockExpressionStatement,
    /// A `const`, `static` or `type` item that spans several lines.
    MultilineDeclaration,
    /// A macro invocation statement that spans several lines.
    MultilineMacroStatement,
    /// A `mod` item.
    Module,
    Other,
}

#[derive(Debug, PartialEq, Eq)]
pub struct NodeInfo {
    /// Byte range of the node's syntax, excluding attached leading trivia.
    pub range: Range<usize>,
    /// Byte range including leading comments/attributes that should stay
    /// attached to this node, and the indentation before them when they begin
    /// a line.
    pub leading_range: Range<usize>,
    /// Byte range including trailing comments that should stay attached to
    /// this node.
    pub trailing_range: Range<usize>,
    pub kind: NodeKind,
    /// Whether the node spans more than one physical source line.
    pub multiline: bool,
    /// Whether the node carries `#[rustfmt::skip]` or lies inside a node that does.
    pub skipped: bool,
}

#[derive(Debug, PartialEq, Eq)]
pub struct Boundary {
    pub parent_kind: ContainerKind,
    pub previous: NodeInfo,
    pub next: NodeInfo,
    /// The whitespace region between the logical end of `previous` and the
    /// logical beginning of `next`: the start of its attached leading trivia,
    /// which is the start of the line where that trivia begins.
    pub range: Range<usize>,
    /// Where a blank line is inserted when one is missing.
    pub insertion_offset: usize,
}

/// Number of newline bytes in `b[a..e]`.
pub open spec fn newline_count(b: Seq<u8>, a: int, e: int) -> nat
    decreases e - a,
{
    if a >= e {
        0
    } else {
        newline_count(b, a, e - 1) + if b[e - 1] == 10 {
            1nat
        } else {
            0nat
        }
    }
}

/// A node's ranges are nested as documented and lie within the text, and
/// `multiline` says whether its syntax crosses a line break.
pub open spec fn node_wf(b: Seq<u8>, n: NodeInfo) -> bool {
    &&& n.leading_range.start <= n.range.start <= n.range.end <= n.trailing_range.end <= b.len()
    &&& n.leading_range.end == n.range.end
    &&& n.trailing_range.start == n.range.start
    &&& n.multiline == (newline_count(b, n.range.start as int, n.range.end as int) > 0)
}

/// A boundary separates two well-formed sibling nodes by whitespace that holds
/// at least one line break: its range runs from the end of the previous node's
/// trailing trivia to the start of the next node's leading trivia, which is
/// the start of a line, and a blank line goes in there.
pub open spec fn boundary_wf(b: Seq<u8>, bd: Boundary) -> bool {
    &&& node_wf(b, bd.previous)
    &&& node_wf(b, bd.next)
    &&& bd.parent_kind != ContainerKind::Other
    &&& bd.previous.trailing_range.end == bd.range.start
    &&& bd.range.start < bd.range.end
    &&& bd.range.end == bd.insertion_offset
    &&& bd.range.end == line_start(b, bd.next.leading_range.start as int)
    &&& bd.range.end == bd.next.leading_range.start
    &&& b[bd.range.end - 1] == 10
    &&& gap_ws(b, bd.range.start as int, bd.range.end as int)
}

pub open spec fn all_wf(b: Seq<u8>, s: Seq<Boundary>) -> bool {
    forall|k: int| 0 <= k < s.len() ==> boundary_wf(b, #[trigger] s[k])
}

/// Counts the newline bytes of `b[a..e]`.
fn count_newlines(b: &[u8], a: usize, e: usize) -> (n: usize)
    requires
        a <= e <= b@.len(),
    ensures
        n == newline_count(b@, a as int, e as int),
        n <= e - a,
{
    let mut n: usize = 0;
    let mut p = a;
    proof {
        assert(newline_count(b@, a as int, a as int) == 0);
    }
    while p < e
        invariant
            a <= p <= e <= b@.len(),
            n == newline_count(b@, a as int, p as int),
            n <= p - a,
        decreases e - p,
    {
        if b[p] == 10 {
            n = n + 1;
        }
        p = p + 1;
    }
    n
}

/// The number of physical lines that `range` of `source` touches: one more than
/// the newlines it holds.
pub fn line_count(source: &str, range: &Range<usize>) -> (n: usize)
    requires
        range.start <= range.end <= source.spec_bytes().len(),
        range.end - range.start < usize::MAX,
    ensures
        n == newline_count(source.spec_bytes(), range.start as int, range.end as int) + 1,
{
    count_newlines(source.as_bytes(), range.start, range.end) + 1
}

/// Tokens come in order: an earlier token ends before a later one starts.
proof fn lemma_tok_order(b: Seq<u8>, t: Seq<Tok>, i: int, j: int)
    requires
        tokens_wf(b, t),
        0 <= i < j < t.len(),
    ensures
        t[i].end <= t[j].start,
    decreases j - i,
{
    assert(t[j].start >= t[j - 1].end);
    if i < j - 1 {
        lemma_tok_order(b, t, i, j - 1);
        assert(t[j - 1].start < t[j - 1].end);
    }
}

/// A line start after the beginning of the text follows a newline.
proof fn lemma_line_start_after_newline(b: Seq<u8>, i: int)
    requires
        0 <= i <= b.len(),
    ensures
        0 <= line_start(b, i) <= i,
        line_start(b, i) > 0 ==> b[line_start(b, i) - 1] == 10,
    decreases i,
{
    if i > 0 && b[i - 1] != 10 {
        lemma_line_start_after_newline(b, i - 1);
    }
}

/// The start of a line is the start of its own line.
proof fn lemma_line_start_fixed(b: Seq<u8>, i: int)
    requires
        0 <= i <= b.len(),
        i == 0 || b[i - 1] == 10,
    ensures
        line_start(b, i) == i,
{
}

proof fn lemma_all_wf_push(b: Seq<u8>, s: Seq<Boundary>, x: Boundary)
    requires
        all_wf(b, s),
        boundary_wf(b, x),
    ensures
        all_wf(b, s.push(x)),
{
    assert forall|k: int| 0 <= k < s.push(x).len() implies boundary_wf(
        b,
        #[trigger] s.push(x)[k],
    ) by {
        if k < s.len() {
            assert(s.push(x)[k] == s[k]);
        }
    }
}

proof fn lemma_all_wf_append(b: Seq<u8>, s: Seq<Boundary>, t: Seq<Boundary>)
    requires
        all_wf(b, s),
        all_wf(b, t),
    ensures
        all_wf(b, s + t),
{
    assert forall|k: int| 0 <= k < (s + t).len() implies boundary_wf(b, #[trigger] (s + t)[k]) by {
        if k < s.len() {
            assert((s + t)[k] == s[k]);
        } else {
            assert((s + t)[k] == t[k - s.len()]);
        }
    }
}

fn copy_node(n: &NodeInfo) -> (r: NodeInfo)
    ensures
        r == *n,
{
    NodeInfo {
        range: Range { start: n.range.start, end: n.range.end },
        leading_range: Range { start: n.leading_range.start, end: n.leading_range.end },
        trailing_range: Range { start: n.trailing_range.start, end: n.trailing_range.end },
        kind: n.kind,
        multiline: n.multiline,
        skipped: n.skipped,
    }
}

/// Whether the closing bracket byte `c` closes the opening bracket byte `open`.
pub open spec fn closes(open: u8, c: u8) -> bool {
    (c == 41 && open == 40) || (c == 93 && open == 91) || (c == 125 && open == 123)
}

/// `close` with each bracket still open on `stack` mapped to `n`.
pub open spec fn close_open(close: Seq<usize>, stack: Seq<usize>, n: usize) -> Seq<usize>
    decreases stack.len(),
{
    if stack.len() == 0 {
        close
    } else {
        close_open(close.update(stack.last() as int, n), stack.drop_last(), n)
    }
}

/// The bracket map of the tokens from `j` on, given the brackets still open
/// (`stack`) and the map so far (`close`): a closing bracket closes the
/// innermost open one when they match and is passed over otherwise.
pub open spec fn bracket_scan(b: Seq<u8>, t: Seq<Tok>, j: int, stack: Seq<usize>, close: Seq<usize>) -> Seq<usize>
    decreases t.len() - j,
{
    if j < 0 || j >= t.len() {
        close_open(close, stack, t.len() as usize)
    } else {
        let c0 = close.push(j as usize);
        let c = b[t[j].start as int];
        if t[j].kind == TokKind::Punct && (c == 40 || c == 91 || c == 123) {
            bracket_scan(b, t, j + 1, stack.push(j as usize), c0)
        } else if t[j].kind == TokKind::Punct && (c == 41 || c == 93 || c == 125) && stack.len() > 0
            && closes(b[t[stack.last() as int].start as int], c) {
            bracket_scan(b, t, j + 1, stack.drop_last(), c0.update(stack.last() as int, j as usize))
        } else {
            bracket_scan(b, t, j + 1, stack, c0)
        }
    }
}

/// For each token, the index of the token that closes the bracket group it
/// opens, or the token count when the group stays open; every other token
/// maps to its own index.
pub open spec fn bracket_map(b: Seq<u8>, t: Seq<Tok>) -> Seq<usize> {
    bracket_scan(b, t, 0, Seq::empty(), Seq::empty())
}

/// For each opening bracket, the index of its closing bracket, or the token
/// count when it stays open; every other token maps to its own index. A closing
/// bracket that does not match the innermost open one is passed over.
fn match_brackets(b: &[u8], toks: &Vec<Tok>) -> (close: Vec<usize>)
    requires
        tokens_wf(b@, toks@),
    ensures
        close@.len() == toks@.len(),
        forall|k: int| 0 <= k < close@.len() ==> k <= #[trigger] close@[k] <= toks@.len(),
        close@ == bracket_map(b@, toks@),
{
    let n = toks.len();
    let mut close: Vec<usize> = Vec::new();
    let mut stack: Vec<usize> = Vec::new();
    let mut j: usize = 0;
    while j < n
        invariant
            n == toks@.len(),
            tokens_wf(b@, toks@),
            j <= n,
            close@.len() == j,
            forall|k: int| 0 <= k < j ==> k <= #[trigger] close@[k] <= n,
            forall|k: int| 0 <= k < stack@.len() ==> #[trigger] stack@[k] < j,
            bracket_scan(b@, toks@, j as int, stack@, close@) == bracket_map(b@, toks@),
        decreases n - j,
    {
        let t = toks[j];
        assert(t.start < t.end <= b@.len()) by {
            assert(toks@[j as int].start < toks@[j as int].end);
        }
        close.push(j);
        if t.kind == TokKind::Punct {
            let c = b[t.start];
            if c == 40 || c == 91 || c == 123 {
                stack.push(j);
            } else if (c == 41 || c == 93 || c == 125) && stack.len() > 0 {
                let top = stack[stack.len() - 1];
                assert(toks@[top as int].start < toks@[top as int].end);
                let open = b[toks[top].start];
                if (c == 41 && open == 40) || (c == 93 && open == 91) || (c == 125 && open == 123) {
                    close.set(top, j);
                    stack.pop();
                }
            }
        }
        j = j + 1;
    }
    while stack.len() > 0
        invariant
            n == toks@.len(),
            close@.len() == n,
            forall|k: int| 0 <= k < n ==> k <= #[trigger] close@[k] <= n,
            forall|k: int| 0 <= k < stack@.len() ==> #[trigger] stack@[k] < n,
            close_open(close@, stack@, n) == bracket_map(b@, toks@),
        decreases stack@.len(),
    {
        let top = stack[stack.len() - 1];
        close.set(top, n);
        stack.pop();
    }
    close
}

/// A source text, its tokens, and for each token the index of the token
/// that closes the bracket group it opens (its own index when it opens none).
pub struct TokenView {
    pub b: Seq<u8>,
    pub toks: Seq<Tok>,
    pub close: Seq<usize>,
}

impl TokenView {
    /// Token `k` is the punctuation byte `c`.
    pub open spec fn punct_at(self, k: int, c: u8) -> bool {
        self.toks[k].kind == TokKind::Punct && self.b[self.toks[k].start as int] == c
    }

    /// Token `k` opens a bracket group: `(`, `[` or `{`.
    pub open spec fn opener_at(self, k: int) -> bool {
        self.punct_at(k, 40) || self.punct_at(k, 91) || self.punct_at(k, 123)
    }

    /// Token `k` is the identifier `w`.
    #[verifier::opaque]
    pub open spec fn word_at(self, k: int, w: &str) -> bool {
        self.toks[k].kind == TokKind::Ident && self.b.subrange(
            self.toks[k].start as int,
            self.toks[k].end as int,
        ) == w.spec_bytes()
    }

    pub open spec fn comment_at(self, k: int) -> bool {
        self.toks[k].kind == TokKind::LineComment || self.toks[k].kind == TokKind::BlockComment
    }

    /// A line break separates token `k` from the token before it.
    pub open spec fn newline_before_at(self, k: int) -> bool {
        newline_count(self.b, self.toks[k - 1].end as int, self.toks[k].start as int) > 0
    }

    /// A comment or an attribute (`#[` or `#![`) starts at token `k`.
    #[verifier::opaque]
    pub open spec fn trivia_at(self, k: int, hi: int) -> bool {
        self.comment_at(k) || (self.punct_at(k, 35) && k + 1 < hi && (self.punct_at(k + 1, 91) || (
        self.punct_at(k + 1, 33) && k + 2 < hi && self.punct_at(k + 2, 91))))
    }

    /// Index just past the bracket group that opens at `k` (or past `k`), no further than `hi`.
    pub open spec fn group_end_at(self, k: int, hi: int) -> int {
        let c = self.close[k] as int;
        if c <= k {
            k + 1
        } else if c < hi {
            c + 1
        } else {
            hi
        }
    }

    /// The first token at depth zero in `[j, hi)` that is a stop byte, or `hi`.
    pub open spec fn scan_to_at(self, j: int, hi: int, stop1: u8, stop2: u8, brace_stops: bool) -> int
        decreases hi - j,
    {
        if j < 0 || j >= hi || j >= self.toks.len() {
            hi
        } else if self.punct_at(j, stop1) || self.punct_at(j, stop2) || (brace_stops
            && self.punct_at(j, 123)) {
            j
        } else if self.opener_at(j) {
            self.scan_to_at(self.group_end_at(j, hi), hi, stop1, stop2, brace_stops)
        } else {
            self.scan_to_at(j + 1, hi, stop1, stop2, brace_stops)
        }
    }

    /// The first `=>` at depth zero in `[j, hi)`, or `hi`.
    pub open spec fn fat_arrow_at(self, j: int, hi: int) -> int
        decreases hi - j,
    {
        if j < 0 || j >= hi || j >= self.toks.len() {
            hi
        } else if self.toks[j].kind == TokKind::FatArrow {
            j
        } else if self.opener_at(j) {
            self.fat_arrow_at(self.group_end_at(j, hi), hi)
        } else {
            self.fat_arrow_at(j + 1, hi)
        }
    }

    /// The attribute at `k` is `#[rustfmt::skip]` or `#![rustfmt::skip]` (the
    /// first), and whether it is the inner form (the second).
    #[verifier::opaque]
    pub open spec fn skip_attribute_at(self, k: int, hi: int) -> (bool, bool) {
        let inner = k + 1 < hi && self.punct_at(k + 1, 33);
        let s = if inner {
            k + 2
        } else {
            k + 1
        };
        if self.punct_at(k, 35) && hi - s >= 5 && self.punct_at(s, 91) && self.word_at(
            s + 1,
            "rustfmt",
        ) && self.toks[s + 2].kind == TokKind::PathSep && self.word_at(s + 3, "skip")
            && self.punct_at(s + 4, 93) {
            (true, inner)
        } else {
            (false, false)
        }
    }

    /// The last identifier of the path `ident (:: ident)*` that goes on from token `j`.
    pub open spec fn path_last(self, j: int, hi: int) -> int
        decreases hi - j,
    {
        if j >= 0 && hi - j > 2 && j + 2 < self.toks.len() && self.toks[j + 1].kind == TokKind::PathSep
            && self.toks[j + 2].kind == TokKind::Ident {
            self.path_last(j + 2, hi)
        } else {
            j
        }
    }

    /// The opening bracket of a macro invocation `::? path ! (..)` that starts at `k`.
    #[verifier::opaque]
    pub open spec fn macro_open_at(self, k: int, hi: int) -> Option<usize> {
        let j = if self.toks[k].kind == TokKind::PathSep {
            k + 1
        } else {
            k
        };
        if j >= hi || self.toks[j].kind != TokKind::Ident {
            None
        } else {
            let l = self.path_last(j, hi);
            if hi - l > 2 && self.punct_at(l + 1, 33) && self.opener_at(l + 2) {
                Some((l + 2) as usize)
            } else {
                None
            }
        }
    }

    /// Token `k` is a keyword, which ends no path before a struct literal.
    #[verifier::opaque]
    pub open spec fn keyword_at(self, k: int) -> bool {
        self.word_at(k, "as") || self.word_at(k, "async") || self.word_at(k, "await")
            || self.word_at(k, "break") || self.word_at(k, "const") || self.word_at(k, "continue")
            || self.word_at(k, "dyn") || self.word_at(k, "else") || self.word_at(k, "enum")
            || self.word_at(k, "extern") || self.word_at(k, "false") || self.word_at(k, "fn")
            || self.word_at(k, "for") || self.word_at(k, "if") || self.word_at(k, "impl")
            || self.word_at(k, "in") || self.word_at(k, "let") || self.word_at(k, "loop")
            || self.word_at(k, "match") || self.word_at(k, "mod") || self.word_at(k, "move")
            || self.word_at(k, "mut") || self.word_at(k, "pub") || self.word_at(k, "ref")
            || self.word_at(k, "return") || self.word_at(k, "static") || self.word_at(k, "struct")
            || self.word_at(k, "trait") || self.word_at(k, "true") || self.word_at(k, "type")
            || self.word_at(k, "unsafe") || self.word_at(k, "use") || self.word_at(k, "where")
            || self.word_at(k, "while") || self.word_at(k, "yield")
    }

    /// A block-like expression starts at token `k`.
    #[verifier::opaque]
    pub open spec fn block_like_start_at(self, k: int, hi: int) -> bool {
        self.word_at(k, "if") || self.word_at(k, "match") || self.word_at(k, "loop")
            || self.word_at(k, "while") || self.word_at(k, "for") || self.punct_at(k, 123) || ((
        self.word_at(k, "unsafe") || self.word_at(k, "async") || self.word_at(k, "const")) && k + 1
            < hi && (self.punct_at(k + 1, 123) || self.word_at(k + 1, "move"))) || (
        self.toks[k].kind == TokKind::Lifetime && k + 1 < hi && self.punct_at(k + 1, 58))
    }

    /// An item (rather than an expression) starts at token `k` inside a block.
    #[verifier::opaque]
    pub open spec fn item_start_at(self, k: int, hi: int) -> bool {
        if self.word_at(k, "fn") || self.word_at(k, "struct") || self.word_at(k, "enum")
            || self.word_at(k, "union") || self.word_at(k, "trait") || self.word_at(k, "impl")
            || self.word_at(k, "mod") || self.word_at(k, "use") || self.word_at(k, "static")
            || self.word_at(k, "type") || self.word_at(k, "extern") || self.word_at(k, "pub") {
            true
        } else if self.word_at(k, "macro_rules") && k + 1 < hi && self.punct_at(k + 1, 33) {
            true
        } else if (self.word_at(k, "const") || self.word_at(k, "unsafe") || self.word_at(k, "async"))
            && k + 1 < hi {
            !self.punct_at(k + 1, 123) && !self.word_at(k + 1, "move")
        } else {
            false
        }
    }


    /// Index just past the inside of the bracket group that opens at `k`, no further than `hi`.
    pub open spec fn inner_end_at(self, k: int, hi: int) -> int {
        let c = self.close[k] as int;
        if c <= k {
            k + 1
        } else if c < hi {
            c
        } else {
            hi
        }
    }

    /// Index just past a `;` found at `j`, or `hi` when the scan found none.
    pub open spec fn end_after(j: int, hi: int) -> int {
        if j < hi {
            j + 1
        } else {
            hi
        }
    }

    /// Index just past the comment or attribute at `k`.
    pub open spec fn trivia_end_at(self, k: int, hi: int) -> int {
        if self.punct_at(k, 35) && k + 1 < hi && self.punct_at(k + 1, 91) {
            self.group_end_at(k + 1, hi)
        } else if self.punct_at(k, 35) && k + 2 < hi && self.punct_at(k + 1, 33) {
            self.group_end_at(k + 2, hi)
        } else {
            k + 1
        }
    }

    /// The node whose leading trivia starts at token `lead`, whose syntax runs
    /// over tokens `code..code_end`, and whose trailing comments end before token `trail_end`.
    #[verifier::opaque]
    pub open spec fn node_at(
        self,
        lead: int,
        code: int,
        code_end: int,
        trail_end: int,
        kind: NodeKind,
        skipped: bool,
    ) -> NodeInfo {
        let start = self.toks[code].start;
        let end = self.toks[code_end - 1].end;
        NodeInfo {
            range: Range { start, end },
            leading_range: Range { start: self.lead_start_at(lead) as usize, end },
            trailing_range: Range { start, end: self.toks[trail_end - 1].end },
            kind,
            multiline: newline_count(self.b, start as int, end as int) > 0,
            skipped,
        }
    }

    /// Where the leading trivia that starts with token `lead` begins: at the
    /// start of its line, indentation included, when no earlier token shares
    /// that line; at the token otherwise.
    pub open spec fn lead_start_at(self, lead: int) -> int {
        let ts = self.toks[lead].start as int;
        let ls = line_start(self.b, ts);
        let prev_end = if lead > 0 {
            self.toks[lead - 1].end as int
        } else {
            0
        };
        if ls >= prev_end {
            ls
        } else {
            ts
        }
    }

    /// The boundary between `prev` and `next`: from the end of `prev`'s trailing
    /// trivia to the start of `next`'s leading trivia; none when they share a
    /// line.
    #[verifier::opaque]
    pub open spec fn boundary_at(self, parent: ContainerKind, prev: NodeInfo, next: NodeInfo) -> Option<Boundary> {
        let ls = line_start(self.b, next.leading_range.start as int);
        if ls > prev.trailing_range.end {
            Some(
                Boundary {
                    parent_kind: parent,
                    previous: prev,
                    next,
                    range: Range {
                        start: prev.trailing_range.end,
                        end: next.leading_range.start,
                    },
                    insertion_offset: next.leading_range.start,
                },
            )
        } else {
            None
        }
    }

    /// The boundary between `prev`, if any, and `next`, as a sequence of at most one.
    pub open spec fn boundary_seq(self, parent: ContainerKind, prev: Option<NodeInfo>, next: NodeInfo) -> Seq<Boundary> {
        match prev {
            Some(p) => match self.boundary_at(parent, p, next) {
                Some(x) => seq![x],
                None => Seq::empty(),
            },
            None => Seq::empty(),
        }
    }

    /// Passes over the visibility and qualifiers of an item from token `k`.
    pub open spec fn quals_end(self, k: int, hi: int) -> int
        decreases hi - k,
    {
        if k < 0 || k >= hi || hi > self.toks.len() {
            k
        } else if self.word_at(k, "pub") {
            if k + 1 < hi && self.punct_at(k + 1, 40) {
                self.quals_end(self.group_end_at(k + 1, hi), hi)
            } else {
                self.quals_end(k + 1, hi)
            }
        } else if self.word_at(k, "default") || self.word_at(k, "unsafe") || self.word_at(k, "async")
            || self.word_at(k, "auto") || self.word_at(k, "safe") {
            self.quals_end(k + 1, hi)
        } else if self.word_at(k, "const") && k + 1 < hi && (self.word_at(k + 1, "fn")
            || self.word_at(k + 1, "unsafe") || self.word_at(k + 1, "async") || self.word_at(
            k + 1,
            "extern",
        )) {
            self.quals_end(k + 1, hi)
        } else if self.word_at(k, "extern") && k + 1 < hi && (self.word_at(k + 1, "fn")
            || self.toks[k + 1].kind == TokKind::Literal) {
            if k + 1 < hi && self.toks[k + 1].kind == TokKind::Literal {
                self.quals_end(k + 2, hi)
            } else {
                self.quals_end(k + 1, hi)
            }
        } else {
            k
        }
    }

    /// Passes over the comments and attributes from token `k`; returns where the
    /// code starts, whether a `rustfmt::skip` attribute was seen, and whether
    /// an inner one was.
    pub open spec fn trivia_run(self, k: int, hi: int, node_skip: bool, skip_all: bool) -> (int, bool, bool)
        decreases hi - k,
    {
        if k < 0 || k >= hi || hi > self.toks.len() || !self.trivia_at(k, hi) {
            (k, node_skip, skip_all)
        } else {
            let sk = self.skip_attribute_at(k, hi);
            let ns = sk.0 || node_skip;
            let sa = (sk.0 && sk.1) || skip_all;
            let k2 = self.trivia_end_at(k, hi);
            if k2 <= k {
                (k, ns, sa)
            } else {
                self.trivia_run(k2, hi, ns, sa)
            }
        }
    }

    /// Passes over the comments that end the line of the token before `lead`.
    pub open spec fn lead_skip(self, lead: int, code: int) -> int
        decreases code - lead,
    {
        if 0 < lead < code && code <= self.toks.len() && self.comment_at(lead)
            && !self.newline_before_at(lead) {
            self.lead_skip(lead + 1, code)
        } else {
            lead
        }
    }

    /// Passes over the comments that stay on the line where a node ends.
    pub open spec fn trail_skip(self, t: int, hi: int) -> int
        decreases hi - t,
    {
        if 0 < t < hi && hi <= self.toks.len() && self.comment_at(t) && !self.newline_before_at(t) {
            self.trail_skip(t + 1, hi)
        } else {
            t
        }
    }

    /// The child of a container of `kind` whose code starts at token `code`.
    pub open spec fn child_at(self, code: int, hi: int, kind: ContainerKind, node_skip: bool) -> (int, NodeKind, Seq<Boundary>)
        decreases hi - code, 5int,
    {
        match kind {
            ContainerKind::Items => self.item_at(code, hi, node_skip),
            ContainerKind::Statements => self.statement_at(code, hi, node_skip),
            _ => self.arm_at(code, hi, node_skip),
        }
    }

    /// The boundaries of the children of a container from token `pos` on, up to
    /// token `hi`; `prev` is the child before `pos`, if any.
    pub open spec fn container_from(
        self,
        pos: int,
        hi: int,
        kind: ContainerKind,
        skip_all: bool,
        prev: Option<NodeInfo>,
    ) -> Seq<Boundary>
        decreases hi - pos, 6int,
    {
        if pos < 0 || pos >= hi || hi > self.toks.len() {
            Seq::empty()
        } else {
            let tr = self.trivia_run(pos, hi, skip_all, skip_all);
            let code = tr.0;
            let node_skip = tr.1;
            if code < pos || code >= hi {
                Seq::empty()
            } else {
                let lead = if prev is None && pos > 0 {
                    self.lead_skip(pos, code)
                } else {
                    pos
                };
                let child = self.child_at(code, hi, kind, node_skip);
                let code_end = child.0;
                if code_end <= code || code_end > hi {
                    Seq::empty()
                } else {
                    let trail_end = self.trail_skip(code_end, hi);
                    if trail_end < code_end || trail_end > hi {
                        Seq::empty()
                    } else {
                        let node = self.node_at(lead, code, code_end, trail_end, child.1, node_skip);
                        self.boundary_seq(kind, prev, node) + child.2 + self.container_from(trail_end, hi, kind, tr.2, Some(node))
                    }
                }
            }
        }
    }

    /// The item that starts at token `i`: the index past it, its kind, and the
    /// boundaries inside it.
    pub open spec fn item_at(self, i: int, hi: int, skipped: bool) -> (int, NodeKind, Seq<Boundary>)
        decreases hi - i, 3int,
    {
        let k = self.quals_end(i, hi);
        if i < 0 || i >= hi || hi > self.toks.len() || k < i || k >= hi {
            (hi, NodeKind::Other, Seq::empty())
        } else if self.word_at(k, "fn") {
            let j = self.scan_to_at(k + 1, hi, 123, 59, true);
            if j < k + 1 || j > hi {
                (hi, NodeKind::Other, Seq::empty())
            } else if j < hi && self.punct_at(j, 123) {
                (
                    self.group_end_at(j, hi),
                    NodeKind::BlockBodiedItem,
                    self.container_from(
                        j + 1,
                        self.inner_end_at(j, hi),
                        ContainerKind::Statements,
                        skipped,
                        None,
                    ),
                )
            } else {
                (Self::end_after(j, hi), NodeKind::Other, Seq::empty())
            }
        } else if self.word_at(k, "struct") || self.word_at(k, "union") || self.word_at(k, "enum")
            || self.word_at(k, "trait") || self.word_at(k, "impl") || self.word_at(k, "extern")
            || self.word_at(k, "mod") {
            let braced = self.word_at(k, "trait") || self.word_at(k, "impl") || self.word_at(
                k,
                "extern",
            );
            let module = self.word_at(k, "mod");
            let j = self.scan_to_at(k + 1, hi, 123, 59, true);
            if j < k + 1 || j > hi {
                (hi, NodeKind::Other, Seq::empty())
            } else if j < hi && self.punct_at(j, 123) {
                (
                    self.group_end_at(j, hi),
                    if module {
                        NodeKind::Module
                    } else {
                        NodeKind::BlockBodiedItem
                    },
                    if braced || module {
                        self.container_from(
                            j + 1,
                            self.inner_end_at(j, hi),
                            ContainerKind::Items,
                            skipped,
                            None,
                        )
                    } else {
                        Seq::empty()
                    },
                )
            } else {
                (
                    Self::end_after(j, hi),
                    if module {
                        NodeKind::Module
                    } else {
                        NodeKind::Other
                    },
                    Seq::empty(),
                )
            }
        } else if self.word_at(k, "const") || self.word_at(k, "static") || self.word_at(k, "type") {
            let j = self.scan_to_at(k + 1, hi, 59, 59, false);
            if j < k + 1 || j > hi {
                (hi, NodeKind::Other, Seq::empty())
            } else {
                let end = Self::end_after(j, hi);
                (
                    end,
                    if newline_count(
                        self.b,
                        self.toks[i].start as int,
                        self.toks[end - 1].end as int,
                    ) > 0 {
                        NodeKind::MultilineDeclaration
                    } else {
                        NodeKind::Other
                    },
                    if !self.word_at(k, "type") {
                        self.scan_from(k + 1, j, skipped)
                    } else {
                        Seq::empty()
                    },
                )
            }
        } else if self.word_at(k, "macro_rules") && hi - k > 3 && self.punct_at(k + 1, 33)
            && self.opener_at(k + 3) {
            let ge = self.group_end_at(k + 3, hi);
            if self.punct_at(k + 3, 123) {
                (ge, NodeKind::BlockBodiedItem, Seq::empty())
            } else if ge < hi && self.punct_at(ge, 59) {
                (ge + 1, NodeKind::Other, Seq::empty())
            } else {
                (ge, NodeKind::Other, Seq::empty())
            }
        } else {
            match self.macro_open_at(k, hi) {
                Some(g) => {
                    let ge = self.group_end_at(g as int, hi);
                    if !self.punct_at(g as int, 123) && ge < hi && self.punct_at(ge, 59) {
                        (ge + 1, NodeKind::Other, Seq::empty())
                    } else {
                        (ge, NodeKind::Other, Seq::empty())
                    }
                },
                None => {
                    let j = self.scan_to_at(k, hi, 59, 59, true);
                    if j < hi && self.punct_at(j, 123) {
                        (self.group_end_at(j, hi), NodeKind::Other, Seq::empty())
                    } else {
                        (Self::end_after(j, hi), NodeKind::Other, Seq::empty())
                    }
                },
            }
        }
    }

    /// The statement that starts at token `i`: the index past it, its kind, and
    /// the boundaries inside it.
    pub open spec fn statement_at(self, i: int, hi: int, skipped: bool) -> (int, NodeKind, Seq<Boundary>)
        decreases hi - i, 4int,
    {
        if i < 0 || i >= hi || hi > self.toks.len() {
            (hi, NodeKind::Other, Seq::empty())
        } else if self.word_at(i, "let") {
            let j = self.scan_to_at(i + 1, hi, 59, 59, false);
            if j < i + 1 || j > hi {
                (hi, NodeKind::Other, Seq::empty())
            } else {
                (Self::end_after(j, hi), NodeKind::LetStatement, self.scan_from(i + 1, j, skipped))
            }
        } else if self.item_start_at(i, hi) {
            self.item_at(i, hi, skipped)
        } else if self.block_like_start_at(i, hi) {
            let bl = self.block_like_at(i, hi, skipped);
            let e = bl.0;
            if e <= i || e > hi {
                (hi, NodeKind::Other, Seq::empty())
            } else if e < hi && (self.punct_at(e, 46) || self.punct_at(e, 63)) {
                let t = self.tail_at(e, hi, skipped);
                (t.0, NodeKind::Other, bl.1 + t.1)
            } else if e < hi && self.punct_at(e, 59) {
                (e + 1, NodeKind::BlockExpressionStatement, bl.1)
            } else {
                (e, NodeKind::BlockExpressionStatement, bl.1)
            }
        } else {
            match self.macro_open_at(i, hi) {
                Some(g) => {
                    let ge = self.group_end_at(g as int, hi);
                    if ge < hi && self.punct_at(ge, 59) || ge >= hi || self.punct_at(g as int, 123) {
                        let end = if ge < hi && self.punct_at(ge, 59) {
                            ge + 1
                        } else {
                            ge
                        };
                        (
                            end,
                            if newline_count(
                                self.b,
                                self.toks[i].start as int,
                                self.toks[end - 1].end as int,
                            ) > 0 {
                                NodeKind::MultilineMacroStatement
                            } else {
                                NodeKind::Other
                            },
                            Seq::empty(),
                        )
                    } else if ge <= i {
                        (hi, NodeKind::Other, Seq::empty())
                    } else {
                        let t = self.tail_at(ge, hi, skipped);
                        (t.0, NodeKind::Other, t.1)
                    }
                },
                None => if self.punct_at(i, 59) {
                    (i + 1, NodeKind::Other, Seq::empty())
                } else {
                    let t = self.tail_at(i, hi, skipped);
                    (t.0, NodeKind::Other, t.1)
                },
            }
        }
    }

    /// The rest of an expression statement from token `k`: the index past it
    /// and the boundaries inside it.
    pub open spec fn tail_at(self, k: int, hi: int, skipped: bool) -> (int, Seq<Boundary>)
        decreases hi - k, 3int,
    {
        let j = self.scan_to_at(k, hi, 59, 59, false);
        if k < 0 || k >= hi || hi > self.toks.len() || j < k || j > hi {
            (hi, Seq::empty())
        } else {
            (Self::end_after(j, hi), self.scan_from(k, j, skipped))
        }
    }

    /// The match arm that starts at token `i`: the index past it, its kind, and
    /// the boundaries inside it.
    pub open spec fn arm_at(self, i: int, hi: int, skipped: bool) -> (int, NodeKind, Seq<Boundary>)
        decreases hi - i, 4int,
    {
        let a = self.fat_arrow_at(i, hi);
        if i < 0 || i >= hi || hi > self.toks.len() || a < i || a > hi {
            (hi, NodeKind::Other, Seq::empty())
        } else {
            let pat = self.scan_from(i, a, skipped);
            if a >= hi || a + 1 >= hi {
                (hi, NodeKind::Other, pat)
            } else {
                let e = a + 1;
                if self.punct_at(e, 123) {
                    let body = self.container_from(
                        e + 1,
                        self.inner_end_at(e, hi),
                        ContainerKind::Statements,
                        skipped,
                        None,
                    );
                    self.arm_rest(i, self.group_end_at(e, hi), hi, skipped, pat + body)
                } else if self.block_like_start_at(e, hi) {
                    let bl = self.block_like_at(e, hi, skipped);
                    self.arm_rest(i, bl.0, hi, skipped, pat + bl.1)
                } else {
                    let j = self.scan_to_at(e, hi, 44, 44, false);
                    if j < e || j > hi {
                        (hi, NodeKind::Other, pat)
                    } else {
                        (Self::end_after(j, hi), NodeKind::Other, pat + self.scan_from(e, j, skipped))
                    }
                }
            }
        }
    }

    /// The end of a match arm whose body ends at `body_end`: a `,`, or a method
    /// chain through the next `,`.
    pub open spec fn arm_rest(self, i: int, body_end: int, hi: int, skipped: bool, acc: Seq<Boundary>) -> (int, NodeKind, Seq<Boundary>)
        decreases hi - i, 3int,
    {
        if i < 0 || body_end < i || body_end > hi || hi > self.toks.len() {
            (hi, NodeKind::Other, acc)
        } else if body_end < hi && self.punct_at(body_end, 44) {
            (body_end + 1, NodeKind::Other, acc)
        } else if body_end < hi && (self.punct_at(body_end, 46) || self.punct_at(body_end, 63)) {
            let j = self.scan_to_at(body_end, hi, 44, 44, false);
            if j < body_end || j > hi {
                (hi, NodeKind::Other, acc)
            } else {
                (Self::end_after(j, hi), NodeKind::Other, acc + self.scan_from(body_end, j, skipped))
            }
        } else {
            (body_end, NodeKind::Other, acc)
        }
    }

    /// The boundaries nested in the expression tokens from `k` up to `hi`:
    /// those of blocks and `match` arm lists; macro bodies and attributes are
    /// not entered.
    pub open spec fn scan_from(self, k: int, hi: int, skipped: bool) -> Seq<Boundary>
        decreases hi - k, 2int,
    {
        if k < 0 || k >= hi || hi > self.toks.len() {
            Seq::empty()
        } else if self.punct_at(k, 35) && k + 1 < hi && self.punct_at(k + 1, 91) {
            self.scan_from(self.group_end_at(k + 1, hi), hi, skipped)
        } else if self.toks[k].kind == TokKind::Ident && self.macro_open_at(k, hi) is Some {
            let ge = self.group_end_at(self.macro_open_at(k, hi)->0 as int, hi);
            if ge <= k || ge > hi {
                Seq::empty()
            } else {
                self.scan_from(ge, hi, skipped)
            }
        } else if self.punct_at(k, 123) {
            let inner = self.inner_end_at(k, hi);
            (if k > 0 && self.toks[k - 1].kind == TokKind::Ident && !self.keyword_at(k - 1) {
                self.scan_from(k + 1, inner, skipped)
            } else {
                self.container_from(k + 1, inner, ContainerKind::Statements, skipped, None)
            }) + self.scan_from(self.group_end_at(k, hi), hi, skipped)
        } else if self.block_like_start_at(k, hi) {
            let bl = self.block_like_at(k, hi, skipped);
            if bl.0 <= k || bl.0 > hi {
                bl.1
            } else {
                bl.1 + self.scan_from(bl.0, hi, skipped)
            }
        } else if self.punct_at(k, 40) || self.punct_at(k, 91) {
            self.scan_from(k + 1, self.inner_end_at(k, hi), skipped) + self.scan_from(
                self.group_end_at(k, hi),
                hi,
                skipped,
            )
        } else {
            self.scan_from(k + 1, hi, skipped)
        }
    }

    /// The block-like expression that starts at token `i` (with its `else`
    /// branches): the index past it and the boundaries inside it.
    pub open spec fn block_like_at(self, i: int, hi: int, skipped: bool) -> (int, Seq<Boundary>)
        decreases hi - i, 1int,
    {
        if i < 0 || i >= hi || hi > self.toks.len() {
            (hi, Seq::empty())
        } else if self.toks[i].kind == TokKind::Lifetime && hi - i > 2 && self.punct_at(i + 1, 58) {
            self.block_like_at(i + 2, hi, skipped)
        } else {
            let header = self.word_at(i, "if") || self.word_at(i, "match") || self.word_at(i, "while")
                || self.word_at(i, "for");
            let h = if self.punct_at(i, 123) {
                i
            } else {
                self.scan_to_at(i + 1, hi, 123, 123, true)
            };
            if h < i || h > hi {
                (hi, Seq::empty())
            } else {
                let s1 = if !self.punct_at(i, 123) && header && h >= i + 1 {
                    self.scan_from(i + 1, h, skipped)
                } else {
                    Seq::empty()
                };
                let rest = self.block_rest_at(i, h, hi, skipped);
                (rest.0, s1 + rest.1)
            }
        }
    }

    /// The rest of the block-like expression that starts at token `i` once its
    /// header has been passed and its body opens at token `h`: the index past
    /// it and the boundaries inside it.
    pub open spec fn block_rest_at(self, i: int, h: int, hi: int, skipped: bool) -> (int, Seq<Boundary>)
        decreases hi - i, 0int,
    {
        if i < 0 || h < i || h > hi || hi > self.toks.len() {
            (hi, Seq::empty())
        } else {
            {
                if h >= hi || !self.punct_at(h, 123) {
                    (hi, Seq::empty())
                } else {
                    let c = self.container_from(
                        h + 1,
                        self.inner_end_at(h, hi),
                        if self.word_at(i, "match") {
                            ContainerKind::MatchArms
                        } else {
                            ContainerKind::Statements
                        },
                        skipped,
                        None,
                    );
                    let e = self.group_end_at(h, hi);
                    if self.word_at(i, "if") && e < hi && self.word_at(e, "else") {
                        if e + 1 < hi && self.word_at(e + 1, "if") {
                            let r = self.block_like_at(e + 1, hi, skipped);
                            (r.0, c + r.1)
                        } else if e + 1 < hi && self.punct_at(e + 1, 123) {
                            (
                                self.group_end_at(e + 1, hi),
                                c + self.container_from(
                                    e + 2,
                                    self.inner_end_at(e + 1, hi),
                                    ContainerKind::Statements,
                                    skipped,
                                    None,
                                ),
                            )
                        } else {
                            (e + 1, c)
                        }
                    } else {
                        (e, c)
                    }
                }
            }
        }
    }

    /// Where the comments and attributes end does not depend on the flags.
    proof fn lemma_trivia_run_pos(self, k: int, hi: int, a: bool, b: bool, c: bool, d: bool)
        ensures
            self.trivia_run(k, hi, a, b).0 == self.trivia_run(k, hi, c, d).0,
        decreases hi - k,
    {
        if !(k < 0 || k >= hi || hi > self.toks.len() || !self.trivia_at(k, hi)) {
            let sk = self.skip_attribute_at(k, hi);
            let k2 = self.trivia_end_at(k, hi);
            if k2 > k {
                self.lemma_trivia_run_pos(
                    k2,
                    hi,
                    sk.0 || a,
                    (sk.0 && sk.1) || b,
                    sk.0 || c,
                    (sk.0 && sk.1) || d,
                );
            }
        }
    }

    /// One child of a container: the boundary before it, those inside it, and
    /// those after it.
    proof fn lemma_container_step(
        self,
        pos: int,
        hi: int,
        kind: ContainerKind,
        sa: bool,
        prev: Option<NodeInfo>,
        lead: int,
        child: (int, NodeKind, Seq<Boundary>),
        trail_end: int,
        node: NodeInfo,
        next_sa: bool,
        out0: Seq<Boundary>,
        out1: Seq<Boundary>,
    )
        requires
            0 <= pos < hi <= self.toks.len(),
            pos <= self.trivia_run(pos, hi, sa, sa).0 < hi,
            lead == (if prev is None && pos > 0 {
                self.lead_skip(pos, self.trivia_run(pos, hi, sa, sa).0)
            } else {
                pos
            }),
            child == self.child_at(
                self.trivia_run(pos, hi, sa, sa).0,
                hi,
                kind,
                self.trivia_run(pos, hi, sa, sa).1,
            ),
            self.trivia_run(pos, hi, sa, sa).0 < child.0 <= hi,
            trail_end == self.trail_skip(child.0, hi),
            child.0 <= trail_end <= hi,
            node == self.node_at(
                lead,
                self.trivia_run(pos, hi, sa, sa).0,
                child.0,
                trail_end,
                child.1,
                self.trivia_run(pos, hi, sa, sa).1,
            ),
            next_sa == self.trivia_run(pos, hi, sa, sa).2,
            out1 == out0 + self.boundary_seq(kind, prev, node) + child.2,
        ensures
            out0 + self.container_from(pos, hi, kind, sa, prev) == out1 + self.container_from(
                trail_end,
                hi,
                kind,
                next_sa,
                Some(node),
            ),
    {
        assert(self.container_from(pos, hi, kind, sa, prev) == self.boundary_seq(kind, prev, node)
            + child.2 + self.container_from(trail_end, hi, kind, next_sa, Some(node)));
        assert(out0 + self.container_from(pos, hi, kind, sa, prev) =~= out1 + self.container_from(
            trail_end,
            hi,
            kind,
            next_sa,
            Some(node),
        ));
    }
}

impl TokenView {
    /// The visibility and qualifiers of an item end no earlier than they start.
    proof fn lemma_quals_end_ge(self, k: int, hi: int)
        ensures
            k <= self.quals_end(k, hi),
        decreases hi - k,
    {
        if !(k < 0 || k >= hi || hi > self.toks.len()) {
            if self.word_at(k, "pub") {
                if k + 1 < hi && self.punct_at(k + 1, 40) {
                    self.lemma_quals_end_ge(self.group_end_at(k + 1, hi), hi);
                } else {
                    self.lemma_quals_end_ge(k + 1, hi);
                }
            } else if self.word_at(k, "default") || self.word_at(k, "unsafe") || self.word_at(
                k,
                "async",
            ) || self.word_at(k, "auto") || self.word_at(k, "safe") {
                self.lemma_quals_end_ge(k + 1, hi);
            } else if self.word_at(k, "const") && k + 1 < hi && (self.word_at(k + 1, "fn")
                || self.word_at(k + 1, "unsafe") || self.word_at(k + 1, "async") || self.word_at(
                k + 1,
                "extern",
            )) {
                self.lemma_quals_end_ge(k + 1, hi);
            } else if self.word_at(k, "extern") && k + 1 < hi && (self.word_at(k + 1, "fn")
                || self.toks[k + 1].kind == TokKind::Literal) {
                if self.toks[k + 1].kind == TokKind::Literal {
                    self.lemma_quals_end_ge(k + 2, hi);
                } else {
                    self.lemma_quals_end_ge(k + 1, hi);
                }
            }
        }
    }

    /// A scan from `j` stops at `j` or later, and no later than `hi`.
    proof fn lemma_scan_to_bounds(self, j: int, hi: int, stop1: u8, stop2: u8, brace_stops: bool)
        requires
            0 <= j <= hi,
        ensures
            j <= self.scan_to_at(j, hi, stop1, stop2, brace_stops) <= hi,
        decreases hi - j,
    {
        if !(j >= hi || j >= self.toks.len()) && !(self.punct_at(j, stop1) || self.punct_at(
            j,
            stop2,
        ) || (brace_stops && self.punct_at(j, 123))) {
            if self.opener_at(j) {
                self.lemma_scan_to_bounds(self.group_end_at(j, hi), hi, stop1, stop2, brace_stops);
            } else {
                self.lemma_scan_to_bounds(j + 1, hi, stop1, stop2, brace_stops);
            }
        }
    }

    /// A `fn`, `struct`, `union`, `enum`, `trait`, `impl` or `extern` item with
    /// a braced body is block-bodied: when the keyword after the item's
    /// visibility and qualifiers is one of these, and the first `{` or `;` at
    /// depth zero after it is a `{`, the item is a
    /// [`NodeKind::BlockBodiedItem`] that runs to the end of that brace group.
    pub proof fn law_braced_type_items_are_block_bodied(self, i: int, hi: int, skipped: bool)
        requires
            0 <= i < hi <= self.toks.len(),
            self.quals_end(i, hi) < hi,
            self.word_at(self.quals_end(i, hi), "fn") || self.word_at(self.quals_end(i, hi), "struct")
                || self.word_at(self.quals_end(i, hi), "union") || self.word_at(
                self.quals_end(i, hi),
                "enum",
            ) || self.word_at(self.quals_end(i, hi), "trait") || self.word_at(
                self.quals_end(i, hi),
                "impl",
            ) || self.word_at(self.quals_end(i, hi), "extern"),
            self.scan_to_at(self.quals_end(i, hi) + 1, hi, 123, 59, true) < hi,
            self.punct_at(self.scan_to_at(self.quals_end(i, hi) + 1, hi, 123, 59, true), 123),
        ensures
            self.item_at(i, hi, skipped).1 == NodeKind::BlockBodiedItem,
            self.item_at(i, hi, skipped).0 == self.group_end_at(
                self.scan_to_at(self.quals_end(i, hi) + 1, hi, 123, 59, true),
                hi,
            ),
    {
        broadcast use vstd::utf8::group_utf8_lib;

        let k = self.quals_end(i, hi);
        self.lemma_quals_end_ge(i, hi);
        self.lemma_scan_to_bounds(k + 1, hi, 123, 59, true);
        reveal(TokenView::word_at);
        reveal_strlit("fn");
        reveal_strlit("mod");
        reveal_strlit("struct");
        reveal_strlit("union");
        reveal_strlit("enum");
        reveal_strlit("trait");
        reveal_strlit("impl");
        assert("fn".spec_bytes() =~= seq![102u8, 110u8]) by {
            assert(is_ascii_chars("fn"@));
        }
        assert("mod".spec_bytes() =~= seq![109u8, 111u8, 100u8]) by {
            assert(is_ascii_chars("mod"@));
        }
        assert("struct".spec_bytes().len() == 6) by {
            assert(is_ascii_chars("struct"@));
        }
        assert("union".spec_bytes().len() == 5) by {
            assert(is_ascii_chars("union"@));
        }
        assert("enum".spec_bytes().len() == 4) by {
            assert(is_ascii_chars("enum"@));
        }
        assert("trait".spec_bytes().len() == 5) by {
            assert(is_ascii_chars("trait"@));
        }
        assert("impl".spec_bytes().len() == 4) by {
            assert(is_ascii_chars("impl"@));
        }
        reveal_strlit("extern");
        assert("extern".spec_bytes().len() == 6) by {
            assert(is_ascii_chars("extern"@));
        }
        assert(!self.word_at(k, "mod"));
    }

    /// A `mod` item, after its visibility and qualifiers, is a module, with a
    /// body or without one.
    pub proof fn law_mod_items_are_modules(self, i: int, hi: int, skipped: bool)
        requires
            0 <= i < hi <= self.toks.len(),
            self.quals_end(i, hi) < hi,
            self.word_at(self.quals_end(i, hi), "mod"),
        ensures
            self.item_at(i, hi, skipped).1 == NodeKind::Module,
    {
        broadcast use vstd::utf8::group_utf8_lib;

        let k = self.quals_end(i, hi);
        self.lemma_quals_end_ge(i, hi);
        self.lemma_scan_to_bounds(k + 1, hi, 123, 59, true);
        reveal(TokenView::word_at);
        reveal_strlit("fn");
        reveal_strlit("mod");
        assert("fn".spec_bytes() =~= seq![102u8, 110u8]) by {
            assert(is_ascii_chars("fn"@));
        }
        assert("mod".spec_bytes() =~= seq![109u8, 111u8, 100u8]) by {
            assert(is_ascii_chars("mod"@));
        }
        assert(!self.word_at(k, "fn"));
    }
}

/// The token stream of a source text with its bracket structure resolved.
struct Parser<'a> {
    b: &'a [u8],
    toks: Vec<Tok>,
    close: Vec<usize>,
}

impl<'a> Parser<'a> {
    spec fn wf(&self) -> bool {
        &&& tokens_wf(self.b@, self.toks@)
        &&& self.close@.len() == self.toks@.len()
        &&& forall|k: int|
            0 <= k < self.close@.len() ==> k <= #[trigger] self.close@[k] <= self.toks@.len()
    }

    spec fn n(&self) -> int {
        self.toks@.len() as int
    }

    /// The token stream as the specifications see it.
    spec fn tv(&self) -> TokenView {
        TokenView { b: self.b@, toks: self.toks@, close: self.close@ }
    }

    fn punct(&self, k: usize, c: u8) -> (r: bool)
        requires
            self.wf(),
            k < self.n(),
        ensures
            r == self.tv().punct_at(k as int, c),
    {
        let t = self.toks[k];
        t.kind == TokKind::Punct && self.b[t.start] == c
    }

    fn opener(&self, k: usize) -> (r: bool)
        requires
            self.wf(),
            k < self.n(),
        ensures
            r == self.tv().opener_at(k as int),
    {
        self.punct(k, 40) || self.punct(k, 91) || self.punct(k, 123)
    }

    fn word(&self, k: usize, w: &str) -> (r: bool)
        requires
            self.wf(),
            k < self.n(),
        ensures
            r == self.tv().word_at(k as int, w),
    {
        proof {
            reveal(TokenView::word_at);
        }
        let t = self.toks[k];
        assert(self.toks@[k as int].start < self.toks@[k as int].end <= self.b@.len());
        if t.kind != TokKind::Ident {
            return false;
        }
        let wb = w.as_bytes();
        let ghost sub = self.b@.subrange(t.start as int, t.end as int);
        if t.end - t.start != wb.len() {
            assert(sub.len() != wb@.len());
            return false;
        }
        let mut i: usize = 0;
        while i < wb.len()
            invariant
                self.wf(),
                t.start < t.end <= self.b@.len(),
                t.end - t.start == wb@.len(),
                i <= wb@.len(),
                sub == self.b@.subrange(t.start as int, t.end as int),
                wb@ == w.spec_bytes(),
                t == self.toks@[k as int],
                forall|j: int| 0 <= j < i ==> #[trigger] sub[j] == wb@[j],
            decreases wb@.len() - i,
        {
            if self.b[t.start + i] != wb[i] {
                proof {
                    reveal(TokenView::word_at);
                }
                assert(sub[i as int] == self.b@[t.start + i]);
                assert(sub[i as int] != wb@[i as int]);
                return false;
            }
            i = i + 1;
        }
        assert(sub =~= wb@);
        true
    }

    fn is_kind(&self, k: usize, kind: TokKind) -> (r: bool)
        requires
            self.wf(),
            k < self.n(),
        ensures
            r == (self.toks@[k as int].kind == kind),
    {
        self.toks[k].kind == kind
    }

    fn is_comment(&self, k: usize) -> (r: bool)
        requires
            self.wf(),
            k < self.n(),
        ensures
            r == self.tv().comment_at(k as int),
    {
        self.is_kind(k, TokKind::LineComment) || self.is_kind(k, TokKind::BlockComment)
    }

    /// Whether a line break separates token `k` from the token before it.
    fn newline_before(&self, k: usize) -> (r: bool)
        requires
            self.wf(),
            0 < k < self.n(),
        ensures
            r == self.tv().newline_before_at(k as int),
    {
        let from = self.toks[k - 1].end;
        let to = self.toks[k].start;
        proof {
            assert(self.toks@[k as int].start >= self.toks@[k - 1].end);
        }
        count_newlines(self.b, from, to) > 0
    }

    /// Whether the text from the start of token `a` to the end of token `e - 1` crosses a line break.
    fn spans_lines(&self, a: usize, e: usize) -> (r: bool)
        requires
            self.wf(),
            a < e <= self.n(),
        ensures
            r == (newline_count(
                self.b@,
                self.toks@[a as int].start as int,
                self.toks@[e - 1].end as int,
            ) > 0),
    {
        let from = self.toks[a].start;
        let to = self.toks[e - 1].end;
        proof {
            if a < e - 1 {
                lemma_tok_order(self.b@, self.toks@, a as int, e - 1);
            }
        }
        count_newlines(self.b, from, to) > 0
    }

    /// Index just past the bracket group that opens at `k` (or past `k` itself),
    /// no further than `hi`.
    fn group_end(&self, k: usize, hi: usize) -> (r: usize)
        requires
            self.wf(),
            k < hi <= self.n(),
        ensures
            k < r <= hi,
            r == self.tv().group_end_at(k as int, hi as int),
    {
        let c = self.close[k];
        if c == k {
            k + 1
        } else if c < hi {
            c + 1
        } else {
            hi
        }
    }

    /// End of the inside of the bracket group that opens at `k`, no further than `hi`.
    fn inner_end(&self, k: usize, hi: usize) -> (r: usize)
        requires
            self.wf(),
            k < hi <= self.n(),
        ensures
            k < r <= hi,
            r == self.tv().inner_end_at(k as int, hi as int),
    {
        let c = self.close[k];
        if c <= k {
            k + 1
        } else if c < hi {
            c
        } else {
            hi
        }
    }

    /// The first token at bracket depth zero in `[k, hi)` that is one of the
    /// stop bytes (`{` is a stop, not a group, when `brace_stops`), or `hi`.
    fn scan_to(&self, k: usize, hi: usize, stop1: u8, stop2: u8, brace_stops: bool) -> (r: usize)
        requires
            self.wf(),
            k <= hi <= self.n(),
        ensures
            k <= r <= hi,
            r == self.tv().scan_to_at(k as int, hi as int, stop1, stop2, brace_stops),
    {
        let mut j = k;
        while j < hi
            invariant
                self.wf(),
                k <= j <= hi <= self.n(),
                self.tv().scan_to_at(j as int, hi as int, stop1, stop2, brace_stops) == self.tv().scan_to_at(
                    k as int,
                    hi as int,
                    stop1,
                    stop2,
                    brace_stops,
                ),
            decreases hi - j,
        {
            if self.punct(j, stop1) || self.punct(j, stop2) || (brace_stops && self.punct(j, 123)) {
                return j;
            }
            if self.opener(j) {
                j = self.group_end(j, hi);
            } else {
                j = j + 1;
            }
        }
        hi
    }

    /// The first `=>` at bracket depth zero in `[k, hi)`, or `hi`.
    fn scan_to_fat_arrow(&self, k: usize, hi: usize) -> (r: usize)
        requires
            self.wf(),
            k <= hi <= self.n(),
        ensures
            k <= r <= hi,
            r == self.tv().fat_arrow_at(k as int, hi as int),
    {
        let mut j = k;
        while j < hi
            invariant
                self.wf(),
                k <= j <= hi <= self.n(),
                self.tv().fat_arrow_at(j as int, hi as int) == self.tv().fat_arrow_at(k as int, hi as int),
            decreases hi - j,
        {
            if self.is_kind(j, TokKind::FatArrow) {
                return j;
            }
            if self.opener(j) {
                j = self.group_end(j, hi);
            } else {
                j = j + 1;
            }
        }
        hi
    }

    /// Whether an attribute (`#[..]` or `#![..]`) or a comment starts at `k`.
    fn is_trivia(&self, k: usize, hi: usize) -> (r: bool)
        requires
            self.wf(),
            k < hi <= self.n(),
        ensures
            r == self.tv().trivia_at(k as int, hi as int),
    {
        proof {
            reveal(TokenView::trivia_at);
        }
        self.is_comment(k) || (self.punct(k, 35) && k + 1 < hi && (self.punct(k + 1, 91) || (
        self.punct(k + 1, 33) && k + 2 < hi && self.punct(k + 2, 91))))
    }

    /// Index just past the comment or attribute at `k`.
    fn trivia_end(&self, k: usize, hi: usize) -> (r: usize)
        requires
            self.wf(),
            k < hi <= self.n(),
        ensures
            k < r <= hi,
            r == self.tv().trivia_end_at(k as int, hi as int),
    {
        if self.punct(k, 35) && k + 1 < hi {
            if self.punct(k + 1, 91) {
                return self.group_end(k + 1, hi);
            }
            if k + 2 < hi && self.punct(k + 1, 33) {
                return self.group_end(k + 2, hi);
            }
        }
        k + 1
    }

    /// Whether the attribute at `k` is `#[rustfmt::skip]` (first) and whether it
    /// is the inner form `#![rustfmt::skip]` (second).
    fn skip_attribute(&self, k: usize, hi: usize) -> (r: (bool, bool))
        requires
            self.wf(),
            k < hi <= self.n(),
        ensures
            r == self.tv().skip_attribute_at(k as int, hi as int),
    {
        proof {
            reveal(TokenView::skip_attribute_at);
        }
        if !self.punct(k, 35) {
            return (false, false);
        }
        let inner = k + 1 < hi && self.punct(k + 1, 33);
        let s = if inner {
            k + 2
        } else {
            k + 1
        };
        if hi - s >= 5 && self.punct(s, 91) && self.word(s + 1, "rustfmt") && self.is_kind(
            s + 2,
            TokKind::PathSep,
        ) && self.word(s + 3, "skip") && self.punct(s + 4, 93) {
            (true, inner)
        } else {
            (false, false)
        }
    }

    /// The opening bracket of a macro invocation `path!(..)` that starts at `k`.
    fn macro_open(&self, k: usize, hi: usize) -> (r: Option<usize>)
        requires
            self.wf(),
            k < hi <= self.n(),
        ensures
            r matches Some(g) ==> k < g < hi,
            r == self.tv().macro_open_at(k as int, hi as int),
    {
        proof {
            reveal(TokenView::macro_open_at);
        }
        let mut j = k;
        if self.is_kind(j, TokKind::PathSep) {
            j = j + 1;
        }
        if j >= hi || !self.is_kind(j, TokKind::Ident) {
            return None;
        }
        let ghost j0 = j as int;
        while hi - j > 2 && self.is_kind(j + 1, TokKind::PathSep) && self.is_kind(
            j + 2,
            TokKind::Ident,
        )
            invariant
                self.wf(),
                k <= j < hi <= self.n(),
                self.tv().path_last(j as int, hi as int) == self.tv().path_last(j0, hi as int),
            decreases hi - j,
        {
            j = j + 2;
        }
        if hi - j > 2 && self.punct(j + 1, 33) && self.opener(j + 2) {
            Some(j + 2)
        } else {
            None
        }
    }

    fn is_keyword(&self, k: usize) -> (r: bool)
        requires
            self.wf(),
            k < self.n(),
        ensures
            r == self.tv().keyword_at(k as int),
    {
        proof {
            reveal(TokenView::keyword_at);
        }
        self.word(k, "as") || self.word(k, "async") || self.word(k, "await") || self.word(
            k,
            "break",
        ) || self.word(k, "const") || self.word(k, "continue") || self.word(k, "dyn")
            || self.word(k, "else") || self.word(k, "enum") || self.word(k, "extern")
            || self.word(k, "false") || self.word(k, "fn") || self.word(k, "for") || self.word(
            k,
            "if",
        ) || self.word(k, "impl") || self.word(k, "in") || self.word(k, "let") || self.word(
            k,
            "loop",
        ) || self.word(k, "match") || self.word(k, "mod") || self.word(k, "move") || self.word(
            k,
            "mut",
        ) || self.word(k, "pub") || self.word(k, "ref") || self.word(k, "return") || self.word(
            k,
            "static",
        ) || self.word(k, "struct") || self.word(k, "trait") || self.word(k, "true")
            || self.word(k, "type") || self.word(k, "unsafe") || self.word(k, "use")
            || self.word(k, "where") || self.word(k, "while") || self.word(k, "yield")
    }

    /// Whether a `{` right after token `k` opens a struct literal: `k` ends a
    /// path (an identifier that is no keyword, or `Self`).
    fn ends_path(&self, k: usize) -> (r: bool)
        requires
            self.wf(),
            k < self.n(),
        ensures
            r == (self.toks@[k as int].kind == TokKind::Ident && !self.tv().keyword_at(k as int)),
    {
        self.is_kind(k, TokKind::Ident) && !self.is_keyword(k)
    }

    /// Whether a block-like expression starts at `k`: `if`, `match`, `loop`,
    /// `while`, `for`, a block, `unsafe`/`async`/`const` blocks, or a labeled one.
    fn block_like_start(&self, k: usize, hi: usize) -> (r: bool)
        requires
            self.wf(),
            k < hi <= self.n(),
        ensures
            r == self.tv().block_like_start_at(k as int, hi as int),
    {
        proof {
            reveal(TokenView::block_like_start_at);
        }
        self.word(k, "if") || self.word(k, "match") || self.word(k, "loop") || self.word(
            k,
            "while",
        ) || self.word(k, "for") || self.punct(k, 123) || ((self.word(k, "unsafe") || self.word(
            k,
            "async",
        ) || self.word(k, "const")) && k + 1 < hi && (self.punct(k + 1, 123) || self.word(
            k + 1,
            "move",
        ))) || (self.is_kind(k, TokKind::Lifetime) && k + 1 < hi && self.punct(k + 1, 58))
    }

    /// Whether an item (rather than an expression) starts at `k` inside a block.
    fn item_start(&self, k: usize, hi: usize) -> (r: bool)
        requires
            self.wf(),
            k < hi <= self.n(),
        ensures
            r == self.tv().item_start_at(k as int, hi as int),
    {
        proof {
            reveal(TokenView::item_start_at);
        }
        if self.word(k, "fn") || self.word(k, "struct") || self.word(k, "enum") || self.word(
            k,
            "union",
        ) || self.word(k, "trait") || self.word(k, "impl") || self.word(k, "mod") || self.word(
            k,
            "use",
        ) || self.word(k, "static") || self.word(k, "type") || self.word(k, "extern")
            || self.word(k, "pub") {
            return true;
        }
        if self.word(k, "macro_rules") && k + 1 < hi && self.punct(k + 1, 33) {
            return true;
        }
        if (self.word(k, "const") || self.word(k, "unsafe") || self.word(k, "async")) && k + 1
            < hi {
            return !self.punct(k + 1, 123) && !self.word(k + 1, "move");
        }
        false
    }

    /// The node whose leading trivia starts at token `lead`, whose syntax runs
    /// over tokens `code..code_end`, and whose trailing comments end before
    /// token `trail_end`.
    fn make_node(
        &self,
        lead: usize,
        code: usize,
        code_end: usize,
        trail_end: usize,
        kind: NodeKind,
        skipped: bool,
    ) -> (r: NodeInfo)
        requires
            self.wf(),
            lead <= code < code_end <= trail_end <= self.n(),
        ensures
            node_wf(self.b@, r),
            r.leading_range.start == self.tv().lead_start_at(lead as int),
            r.trailing_range.end == self.toks@[trail_end - 1].end,
            r.kind == kind,
            r.skipped == skipped,
            r == self.tv().node_at(
                lead as int,
                code as int,
                code_end as int,
                trail_end as int,
                kind,
                skipped,
            ),
    {
        proof {
            reveal(TokenView::node_at);
        }
        let start = self.toks[code].start;
        let end = self.toks[code_end - 1].end;
        let ts = self.toks[lead].start;
        let ls = crate::text::line_start_at(self.b, ts);
        let prev_end = if lead > 0 {
            self.toks[lead - 1].end
        } else {
            0
        };
        let lead_start = if ls >= prev_end {
            ls
        } else {
            ts
        };
        proof {
            lemma_line_start_after_newline(self.b@, ts as int);
        }
        let trail = self.toks[trail_end - 1].end;
        proof {
            let b = self.b@;
            let t = self.toks@;
            if lead < code {
                lemma_tok_order(b, t, lead as int, code as int);
            }
            if code < code_end - 1 {
                lemma_tok_order(b, t, code as int, code_end - 1);
            }
            if code_end - 1 < trail_end - 1 {
                lemma_tok_order(b, t, code_end - 1, trail_end - 1);
                assert(t[trail_end - 1].start < t[trail_end - 1].end);
            }
            assert(t[code as int].start < t[code as int].end);
        }
        let lines = count_newlines(self.b, start, end);
        NodeInfo {
            range: Range { start, end },
            leading_range: Range { start: lead_start, end },
            trailing_range: Range { start, end: trail },
            kind,
            multiline: lines > 0,
            skipped,
        }
    }

    /// The boundary between `prev`, whose trailing trivia ends with token
    /// `next_lead - 1`, and `next`, whose leading trivia starts at token
    /// `next_lead`; none when they share a line.
    fn make_boundary(
        &self,
        parent: ContainerKind,
        prev: NodeInfo,
        next: NodeInfo,
        next_lead: usize,
    ) -> (r: Option<Boundary>)
        requires
            self.wf(),
            0 < next_lead < self.n(),
            parent != ContainerKind::Other,
            node_wf(self.b@, prev),
            node_wf(self.b@, next),
            prev.trailing_range.end == self.toks@[next_lead - 1].end,
            next.leading_range.start == self.tv().lead_start_at(next_lead as int),
        ensures
            r matches Some(bd) ==> boundary_wf(self.b@, bd),
            r == self.tv().boundary_at(parent, prev, next),
    {
        proof {
            reveal(TokenView::boundary_at);
        }
        let from = prev.trailing_range.end;
        let ls = crate::text::line_start_at(self.b, next.leading_range.start);
        proof {
            lemma_line_start_after_newline(self.b@, next.leading_range.start as int);
        }
        if ls > from {
            proof {
                let t = self.toks@;
                assert(t[next_lead as int].start >= t[next_lead - 1].end
                    && gap_ws(self.b@, t[next_lead - 1].end as int, t[next_lead as int].start as int));
                lemma_line_start_after_newline(self.b@, t[next_lead as int].start as int);
                lemma_line_start_fixed(self.b@, line_start(self.b@, t[next_lead as int].start as int));
                assert(ls == next.leading_range.start);
            }
            Some(
                Boundary {
                    parent_kind: parent,
                    previous: prev,
                    next,
                    range: Range { start: from, end: ls },
                    insertion_offset: ls,
                },
            )
        } else {
            None
        }
    }

    /// Parses the children of a container that spans tokens `[lo, hi)` and
    /// appends, in document order, each boundary between neighbouring children
    /// followed by the boundaries inside the later child.
    #[verifier::rlimit(100)]
    #[verifier::spinoff_prover]
    fn container(&self, lo: usize, hi: usize, kind: ContainerKind, skipped: bool, out: &mut Vec<Boundary>)
        requires
            self.wf(),
            lo <= hi <= self.n(),
            kind != ContainerKind::Other,
            all_wf(self.b@, old(out)@),
        ensures
            all_wf(self.b@, final(out)@),
            final(out)@ == old(out)@ + self.tv().container_from(
                lo as int,
                hi as int,
                kind,
                skipped,
                None,
            ),
        decreases hi - lo, 7int,
    {
        let mut pos = lo;
        let mut prev: Option<NodeInfo> = None;
        let mut skip_all = skipped;
        let ghost out0 = out@;
        let ghost total = self.tv().container_from(lo as int, hi as int, kind, skipped, None);
        while pos < hi
            invariant
                self.wf(),
                lo <= pos <= hi <= self.n(),
                kind != ContainerKind::Other,
                all_wf(self.b@, out@),
                out@ + self.tv().container_from(pos as int, hi as int, kind, skip_all, prev) == out0
                    + total,
                prev matches Some(p) ==> pos > 0 && node_wf(self.b@, p) && p.trailing_range.end
                    == self.toks@[pos - 1].end,
            ensures
                out@ == out0 + total,
            decreases hi - pos,
        {
            let ghost before = out@;
            match self.container_step(pos, hi, kind, skip_all, &prev, out) {
                None => {
                    assert(out@ =~= out0 + total);
                    break ;
                },
                Some((next, next_skip_all, node)) => {
                    assert(out@ + self.tv().container_from(
                        next as int,
                        hi as int,
                        kind,
                        next_skip_all,
                        Some(node),
                    ) =~= out0 + total);
                    pos = next;
                    skip_all = next_skip_all;
                    prev = Some(node);
                },
            }
        }
    }

    /// Parses one child of a container from token `pos`, appends the boundary
    /// before it and those inside it, and returns where the next child may
    /// start, the skip flag for the rest of the container, and the child;
    /// nothing when only comments and attributes are left.
    #[verifier::rlimit(100)]
    #[verifier::spinoff_prover]
    fn container_step(
        &self,
        pos: usize,
        hi: usize,
        kind: ContainerKind,
        skip_all: bool,
        prev: &Option<NodeInfo>,
        out: &mut Vec<Boundary>,
    ) -> (r: Option<(usize, bool, NodeInfo)>)
        requires
            self.wf(),
            pos < hi <= self.n(),
            kind != ContainerKind::Other,
            all_wf(self.b@, old(out)@),
            *prev matches Some(p) ==> pos > 0 && node_wf(self.b@, p) && p.trailing_range.end
                == self.toks@[pos - 1].end,
        ensures
            all_wf(self.b@, final(out)@),
            r is None ==> final(out)@ == old(out)@ && self.tv().container_from(
                pos as int,
                hi as int,
                kind,
                skip_all,
                *prev,
            ) == Seq::<Boundary>::empty(),
            r matches Some(x) ==> {
                &&& pos < x.0 <= hi
                &&& node_wf(self.b@, x.2)
                &&& x.2.trailing_range.end == self.toks@[x.0 - 1].end
                &&& old(out)@ + self.tv().container_from(pos as int, hi as int, kind, skip_all, *prev)
                    == final(out)@ + self.tv().container_from(
                    x.0 as int,
                    hi as int,
                    kind,
                    x.1,
                    Some(x.2),
                )
            },
        decreases hi - pos, 6int,
    {
        let (code, node_skip, next_skip_all, lead) = self.child_start(
            pos,
            hi,
            skip_all,
            prev.is_none(),
        );
        if code >= hi {
            assert(self.tv().container_from(pos as int, hi as int, kind, skip_all, *prev)
                =~= Seq::<Boundary>::empty());
            return None;
        }
        let mut inner: Vec<Boundary> = Vec::new();
        assert(all_wf(self.b@, inner@));
        let (trail_end, node) = self.child_rest(code, hi, kind, node_skip, lead, &mut inner);
        let ghost child = self.tv().child_at(code as int, hi as int, kind, node_skip);
        let ghost tr = self.tv().trivia_run(pos as int, hi as int, skip_all, skip_all);
        assert(tr.0 == code && tr.1 == node_skip && tr.2 == next_skip_all);
        let ghost out0 = out@;
        self.push_boundary(kind, prev, &node, lead, out);
        let ghost before = out@;
        let ghost added = inner@;
        out.append(&mut inner);
        proof {
            lemma_all_wf_append(self.b@, before, added);
            assert(out@ =~= out0 + self.tv().boundary_seq(kind, *prev, node) + child.2);
            self.tv().lemma_container_step(
                pos as int,
                hi as int,
                kind,
                skip_all,
                *prev,
                lead as int,
                child,
                trail_end as int,
                node,
                next_skip_all,
                out0,
                out@,
            );
        }
        Some((trail_end, next_skip_all, node))
    }

    /// Appends the boundary between `prev`, if any, and `node`, whose leading
    /// trivia starts at token `lead`.
    fn push_boundary(
        &self,
        kind: ContainerKind,
        prev: &Option<NodeInfo>,
        node: &NodeInfo,
        lead: usize,
        out: &mut Vec<Boundary>,
    )
        requires
            self.wf(),
            kind != ContainerKind::Other,
            all_wf(self.b@, old(out)@),
            node_wf(self.b@, *node),
            lead < self.n(),
            node.leading_range.start == self.tv().lead_start_at(lead as int),
            *prev matches Some(p) ==> lead > 0 && node_wf(self.b@, p) && p.trailing_range.end
                == self.toks@[lead - 1].end,
        ensures
            all_wf(self.b@, final(out)@),
            final(out)@ == old(out)@ + self.tv().boundary_seq(kind, *prev, *node),
    {
        match prev {
            Some(p) => {
                match self.make_boundary(kind, copy_node(p), copy_node(node), lead) {
                    Some(bd) => {
                        proof {
                            lemma_all_wf_push(self.b@, out@, bd);
                        }
                        out.push(bd);
                    },
                    None => {},
                }
            },
            None => {},
        }
    }

    /// Passes over the comments and attributes before a child of a container
    /// from token `pos`: where its code starts, whether it is skipped, whether
    /// the rest of the container is, and where its leading trivia starts.
    fn child_start(&self, pos: usize, hi: usize, skip_all: bool, first: bool) -> (r: (
        usize,
        bool,
        bool,
        usize,
    ))
        requires
            self.wf(),
            pos < hi <= self.n(),
        ensures
            (r.0 as int, r.1, r.2) == self.tv().trivia_run(pos as int, hi as int, skip_all, skip_all),
            pos <= r.0 <= hi,
            r.0 < hi ==> r.3 == (if first && pos > 0 {
                self.tv().lead_skip(pos as int, r.0 as int)
            } else {
                pos as int
            }),
            r.0 < hi ==> pos <= r.3 <= r.0,
    {
        let mut node_skip = skip_all;
        let mut all = skip_all;
        let mut k = pos;
        let ghost tr = self.tv().trivia_run(pos as int, hi as int, skip_all, skip_all);
        while k < hi && self.is_trivia(k, hi)
            invariant
                self.wf(),
                pos <= k <= hi <= self.n(),
                self.tv().trivia_run(k as int, hi as int, node_skip, all) == tr,
            decreases hi - k,
        {
            let (is_skip, inner) = self.skip_attribute(k, hi);
            if is_skip {
                node_skip = true;
                if inner {
                    all = true;
                }
            }
            k = self.trivia_end(k, hi);
        }
        if k >= hi {
            return (k, node_skip, all, pos);
        }
        let code = k;
        // Comments on the line of the token before the first child end that
        // token's line; they are not the child's.
        let mut lead = pos;
        if first && pos > 0 {
            while lead < code && self.is_comment(lead) && !self.newline_before(lead)
                invariant
                    self.wf(),
                    0 < pos <= lead <= code < hi <= self.n(),
                    self.tv().lead_skip(lead as int, code as int) == self.tv().lead_skip(
                        pos as int,
                        code as int,
                    ),
                decreases code - lead,
            {
                lead = lead + 1;
            }
        }
        (code, node_skip, all, lead)
    }

    /// Parses the child of a container whose code starts at token `code` and
    /// whose leading trivia starts at token `lead`, with the comments that end
    /// its line; the boundaries inside it go to `inner`.
    fn child_rest(
        &self,
        code: usize,
        hi: usize,
        kind: ContainerKind,
        node_skip: bool,
        lead: usize,
        inner: &mut Vec<Boundary>,
    ) -> (r: (usize, NodeInfo))
        requires
            self.wf(),
            lead <= code < hi <= self.n(),
            all_wf(self.b@, old(inner)@),
        ensures
            all_wf(self.b@, final(inner)@),
            code < self.tv().child_at(code as int, hi as int, kind, node_skip).0 <= r.0 <= hi,
            final(inner)@ == old(inner)@ + self.tv().child_at(code as int, hi as int, kind, node_skip).2,
            r.0 == self.tv().trail_skip(
                self.tv().child_at(code as int, hi as int, kind, node_skip).0,
                hi as int,
            ),
            r.1 == self.tv().node_at(
                lead as int,
                code as int,
                self.tv().child_at(code as int, hi as int, kind, node_skip).0,
                r.0 as int,
                self.tv().child_at(code as int, hi as int, kind, node_skip).1,
                node_skip,
            ),
            node_wf(self.b@, r.1),
            r.1.leading_range.start == self.tv().lead_start_at(lead as int),
            r.1.trailing_range.end == self.toks@[r.0 - 1].end,
        decreases hi - code, 5int,
    {
        let (code_end, node_kind) = match kind {
            ContainerKind::Items => self.item(code, hi, node_skip, inner),
            ContainerKind::Statements => self.statement(code, hi, node_skip, inner),
            _ => self.arm(code, hi, node_skip, inner),
        };
        let mut trail_end = code_end;
        let ghost ce = code_end as int;
        while trail_end < hi && self.is_comment(trail_end) && !self.newline_before(trail_end)
            invariant
                self.wf(),
                code < code_end <= trail_end <= hi <= self.n(),
                ce == code_end,
                self.tv().trail_skip(trail_end as int, hi as int) == self.tv().trail_skip(
                    ce,
                    hi as int,
                ),
            decreases hi - trail_end,
        {
            trail_end = trail_end + 1;
        }
        let node = self.make_node(lead, code, code_end, trail_end, node_kind, node_skip);
        (trail_end, node)
    }

    /// Parses the item that starts at token `i` and returns the index past it
    /// and its kind.
    #[verifier::rlimit(100)]
    #[verifier::spinoff_prover]
    fn item(&self, i: usize, hi: usize, skipped: bool, out: &mut Vec<Boundary>) -> (r: (usize, NodeKind))
        requires
            self.wf(),
            i < hi <= self.n(),
            all_wf(self.b@, old(out)@),
        ensures
            i < r.0 <= hi,
            all_wf(self.b@, final(out)@),
            r.0 == self.tv().item_at(i as int, hi as int, skipped).0,
            r.1 == self.tv().item_at(i as int, hi as int, skipped).1,
            final(out)@ == old(out)@ + self.tv().item_at(i as int, hi as int, skipped).2,
        decreases hi - i, 3int,
    {
        let mut k = i;
        // Visibility and qualifiers.
        while k < hi
            invariant
                self.wf(),
                i <= k <= hi <= self.n(),
                self.tv().quals_end(k as int, hi as int) == self.tv().quals_end(i as int, hi as int),
            ensures
                i <= k <= hi,
                self.tv().quals_end(i as int, hi as int) == k,
            decreases hi - k,
        {
            if self.word(k, "pub") {
                k = k + 1;
                if k < hi && self.punct(k, 40) {
                    k = self.group_end(k, hi);
                }
            } else if self.word(k, "default") || self.word(k, "unsafe") || self.word(k, "async")
                || self.word(k, "auto") || self.word(k, "safe") {
                k = k + 1;
            } else if self.word(k, "const") && k + 1 < hi && (self.word(k + 1, "fn") || self.word(
                k + 1,
                "unsafe",
            ) || self.word(k + 1, "async") || self.word(k + 1, "extern")) {
                k = k + 1;
            } else if self.word(k, "extern") && k + 1 < hi && (self.word(k + 1, "fn")
                || self.is_kind(k + 1, TokKind::Literal)) {
                k = k + 1;
                if k < hi && self.is_kind(k, TokKind::Literal) {
                    k = k + 1;
                }
            } else {
                assert(self.tv().quals_end(k as int, hi as int) == k);
                break ;
            }
        }
        assert(self.tv().quals_end(i as int, hi as int) == k);
        if k >= hi {
            return (hi, NodeKind::Other);
        }
        if self.word(k, "fn") {
            let j = self.scan_to(k + 1, hi, 123, 59, true);
            if j < hi && self.punct(j, 123) {
                let e = self.inner_end(j, hi);
                self.container(j + 1, e, ContainerKind::Statements, skipped, out);
                return (self.group_end(j, hi), NodeKind::BlockBodiedItem);
            }
            return (if j < hi { j + 1 } else { hi }, NodeKind::Other);
        }
        let braced_items = self.word(k, "trait") || self.word(k, "impl") || self.word(k, "extern");
        let module = self.word(k, "mod");
        if self.word(k, "struct") || self.word(k, "union") || self.word(k, "enum") || braced_items
            || module {
            let j = self.scan_to(k + 1, hi, 123, 59, true);
            if j < hi && self.punct(j, 123) {
                if braced_items || module {
                    let e = self.inner_end(j, hi);
                    self.container(j + 1, e, ContainerKind::Items, skipped, out);
                }
                return (
                    self.group_end(j, hi),
                    if module {
                        NodeKind::Module
                    } else {
                        NodeKind::BlockBodiedItem
                    },
                );
            }
            return (
                if j < hi {
                    j + 1
                } else {
                    hi
                },
                if module {
                    NodeKind::Module
                } else {
                    NodeKind::Other
                },
            );
        }
        if self.word(k, "const") || self.word(k, "static") || self.word(k, "type") {
            let declaration = !self.word(k, "type");
            let j = self.scan_to(k + 1, hi, 59, 59, false);
            if declaration {
                self.scan_expr(k + 1, j, skipped, out);
            }
            let end = if j < hi {
                j + 1
            } else {
                hi
            };
            let kind = if self.spans_lines(i, end) {
                NodeKind::MultilineDeclaration
            } else {
                NodeKind::Other
            };
            return (end, kind);
        }
        if self.word(k, "macro_rules") && hi - k > 3 && self.punct(k + 1, 33) && self.opener(k + 3) {
            let g = k + 3;
            let ge = self.group_end(g, hi);
            if self.punct(g, 123) {
                return (ge, NodeKind::BlockBodiedItem);
            }
            return (
                if ge < hi && self.punct(ge, 59) {
                    ge + 1
                } else {
                    ge
                },
                NodeKind::Other,
            );
        }
        match self.macro_open(k, hi) {
            Some(g) => {
                let ge = self.group_end(g, hi);
                if !self.punct(g, 123) && ge < hi && self.punct(ge, 59) {
                    return (ge + 1, NodeKind::Other);
                }
                return (ge, NodeKind::Other);
            },
            None => {},
        }
        // Anything else runs to a `;` or through a braced body.
        let j = self.scan_to(k, hi, 59, 59, true);
        if j < hi && self.punct(j, 123) {
            return (self.group_end(j, hi), NodeKind::Other);
        }
        (
            if j < hi {
                j + 1
            } else {
                hi
            },
            NodeKind::Other,
        )
    }

    /// Parses the statement that starts at token `i` of a block and returns the
    /// index past it and its kind.
    #[verifier::rlimit(100)]
    #[verifier::spinoff_prover]
    fn statement(&self, i: usize, hi: usize, skipped: bool, out: &mut Vec<Boundary>) -> (r: (usize, NodeKind))
        requires
            self.wf(),
            i < hi <= self.n(),
            all_wf(self.b@, old(out)@),
        ensures
            i < r.0 <= hi,
            all_wf(self.b@, final(out)@),
            r.0 == self.tv().statement_at(i as int, hi as int, skipped).0,
            r.1 == self.tv().statement_at(i as int, hi as int, skipped).1,
            final(out)@ == old(out)@ + self.tv().statement_at(i as int, hi as int, skipped).2,
        decreases hi - i, 4int,
    {
        if self.word(i, "let") {
            let j = self.scan_to(i + 1, hi, 59, 59, false);
            self.scan_expr(i + 1, j, skipped, out);
            return (
                if j < hi {
                    j + 1
                } else {
                    hi
                },
                NodeKind::LetStatement,
            );
        }
        if self.item_start(i, hi) {
            return self.item(i, hi, skipped, out);
        }
        if self.block_like_start(i, hi) {
            let e = self.block_like(i, hi, skipped, out);
            if e < hi && (self.punct(e, 46) || self.punct(e, 63)) {
                return (self.expression_tail(e, hi, skipped, out), NodeKind::Other);
            }
            if e < hi && self.punct(e, 59) {
                return (e + 1, NodeKind::BlockExpressionStatement);
            }
            return (e, NodeKind::BlockExpressionStatement);
        }
        match self.macro_open(i, hi) {
            Some(g) => {
                let ge = self.group_end(g, hi);
                let pure_end = if ge < hi && self.punct(ge, 59) {
                    Some(ge + 1)
                } else if ge >= hi || self.punct(g, 123) {
                    Some(ge)
                } else {
                    None
                };
                match pure_end {
                    Some(end) => {
                        let kind = if self.spans_lines(i, end) {
                            NodeKind::MultilineMacroStatement
                        } else {
                            NodeKind::Other
                        };
                        return (end, kind);
                    },
                    None => {
                        return (self.expression_tail(ge, hi, skipped, out), NodeKind::Other);
                    },
                }
            },
            None => {},
        }
        if self.punct(i, 59) {
            return (i + 1, NodeKind::Other);
        }
        (self.expression_tail(i, hi, skipped, out), NodeKind::Other)
    }

    /// The rest of an expression statement from token `k`: through the next `;`
    /// at depth zero, or to `hi`.
    #[verifier::rlimit(100)]
    #[verifier::spinoff_prover]
    fn expression_tail(&self, k: usize, hi: usize, skipped: bool, out: &mut Vec<Boundary>) -> (r: usize)
        requires
            self.wf(),
            k < hi <= self.n(),
            all_wf(self.b@, old(out)@),
        ensures
            k < r <= hi,
            all_wf(self.b@, final(out)@),
            r == self.tv().tail_at(k as int, hi as int, skipped).0,
            final(out)@ == old(out)@ + self.tv().tail_at(k as int, hi as int, skipped).1,
        decreases hi - k, 3int,
    {
        let j = self.scan_to(k, hi, 59, 59, false);
        let ghost o1 = out@;
        self.scan_expr(k, j, skipped, out);
        assert(out@ == o1 + self.tv().scan_from(k as int, j as int, skipped));
        assert(self.tv().tail_at(k as int, hi as int, skipped).1 == self.tv().scan_from(k as int, j as int, skipped));
        if j < hi {
            j + 1
        } else {
            hi
        }
    }

    /// Parses the match arm that starts at token `i` and returns the index past it.
    #[verifier::rlimit(100)]
    #[verifier::spinoff_prover]
    fn arm(&self, i: usize, hi: usize, skipped: bool, out: &mut Vec<Boundary>) -> (r: (usize, NodeKind))
        requires
            self.wf(),
            i < hi <= self.n(),
            all_wf(self.b@, old(out)@),
        ensures
            i < r.0 <= hi,
            all_wf(self.b@, final(out)@),
            r.0 == self.tv().arm_at(i as int, hi as int, skipped).0,
            r.1 == self.tv().arm_at(i as int, hi as int, skipped).1,
            final(out)@ == old(out)@ + self.tv().arm_at(i as int, hi as int, skipped).2,
        decreases hi - i, 4int,
    {
        let a = self.scan_to_fat_arrow(i, hi);
        self.scan_expr(i, a, skipped, out);
        if a >= hi || a + 1 >= hi {
            return (hi, NodeKind::Other);
        }
        let e = a + 1;
        let body_end = if self.punct(e, 123) {
            let inner = self.inner_end(e, hi);
            self.container(e + 1, inner, ContainerKind::Statements, skipped, out);
            self.group_end(e, hi)
        } else if self.block_like_start(e, hi) {
            self.block_like(e, hi, skipped, out)
        } else {
            let j = self.scan_to(e, hi, 44, 44, false);
            self.scan_expr(e, j, skipped, out);
            return (
                if j < hi {
                    j + 1
                } else {
                    hi
                },
                NodeKind::Other,
            );
        };
        if body_end < hi && self.punct(body_end, 44) {
            return (body_end + 1, NodeKind::Other);
        }
        if body_end < hi && (self.punct(body_end, 46) || self.punct(body_end, 63)) {
            let j = self.scan_to(body_end, hi, 44, 44, false);
            self.scan_expr(body_end, j, skipped, out);
            return (
                if j < hi {
                    j + 1
                } else {
                    hi
                },
                NodeKind::Other,
            );
        }
        (body_end, NodeKind::Other)
    }

    /// Finds the blocks and `match` arm lists nested in the expression tokens
    /// `[lo, hi)`. Macro bodies and attributes are not entered.
    #[verifier::rlimit(100)]
    #[verifier::spinoff_prover]
    fn scan_expr(&self, lo: usize, hi: usize, skipped: bool, out: &mut Vec<Boundary>)
        requires
            self.wf(),
            lo <= hi <= self.n(),
            all_wf(self.b@, old(out)@),
        ensures
            all_wf(self.b@, final(out)@),
            final(out)@ == old(out)@ + self.tv().scan_from(lo as int, hi as int, skipped),
        decreases hi - lo, 2int,
    {
        let mut k = lo;
        let ghost out0 = out@;
        while k < hi
            invariant
                self.wf(),
                lo <= k <= hi <= self.n(),
                all_wf(self.b@, out@),
                out@ + self.tv().scan_from(k as int, hi as int, skipped) == out0 + self.tv().scan_from(
                    lo as int,
                    hi as int,
                    skipped,
                ),
            decreases hi - k,
        {
            if self.punct(k, 35) && k + 1 < hi && self.punct(k + 1, 91) {
                k = self.group_end(k + 1, hi);
            } else if self.is_kind(k, TokKind::Ident) && self.macro_open(k, hi).is_some() {
                match self.macro_open(k, hi) {
                    Some(g) => {
                        k = self.group_end(g, hi);
                    },
                    None => {
                        k = k + 1;
                    },
                }
            } else if self.punct(k, 123) {
                let inner = self.inner_end(k, hi);
                if k > 0 && self.ends_path(k - 1) {
                    self.scan_expr(k + 1, inner, skipped, out);
                } else {
                    self.container(k + 1, inner, ContainerKind::Statements, skipped, out);
                }
                k = self.group_end(k, hi);
            } else if self.block_like_start(k, hi) {
                k = self.block_like(k, hi, skipped, out);
            } else if self.punct(k, 40) || self.punct(k, 91) {
                let inner = self.inner_end(k, hi);
                self.scan_expr(k + 1, inner, skipped, out);
                k = self.group_end(k, hi);
            } else {
                k = k + 1;
            }
        }
    }

    /// Parses the block-like expression that starts at token `i` (with its
    /// `else` branches) and returns the index past it.
    #[verifier::rlimit(100)]
    #[verifier::spinoff_prover]
    fn block_like(&self, i: usize, hi: usize, skipped: bool, out: &mut Vec<Boundary>) -> (r: usize)
        requires
            self.wf(),
            i < hi <= self.n(),
            all_wf(self.b@, old(out)@),
        ensures
            i < r <= hi,
            all_wf(self.b@, final(out)@),
            r == self.tv().block_like_at(i as int, hi as int, skipped).0,
            final(out)@ == old(out)@ + self.tv().block_like_at(i as int, hi as int, skipped).1,
        decreases hi - i, 1int,
    {
        if self.is_kind(i, TokKind::Lifetime) && hi - i > 2 && self.punct(i + 1, 58) {
            return self.block_like(i + 2, hi, skipped, out);
        }
        let header = self.word(i, "if") || self.word(i, "match") || self.word(i, "while")
            || self.word(i, "for");
        let h = if self.punct(i, 123) {
            i
        } else {
            let h = self.scan_to(i + 1, hi, 123, 123, true);
            if header {
                self.scan_expr(i + 1, h, skipped, out);
            }
            h
        };
        self.block_rest(i, h, hi, skipped, out)
    }

    /// The rest of the block-like expression that starts at token `i` once its
    /// header has been passed and its body opens at token `h`.
    #[verifier::rlimit(100)]
    #[verifier::spinoff_prover]
    fn block_rest(&self, i: usize, h: usize, hi: usize, skipped: bool, out: &mut Vec<Boundary>) -> (r: usize)
        requires
            self.wf(),
            i <= h <= hi <= self.n(),
            i < hi,
            all_wf(self.b@, old(out)@),
        ensures
            i < r <= hi,
            all_wf(self.b@, final(out)@),
            r == self.tv().block_rest_at(i as int, h as int, hi as int, skipped).0,
            final(out)@ == old(out)@ + self.tv().block_rest_at(i as int, h as int, hi as int, skipped).1,
        decreases hi - i, 0int,
    {
        if h >= hi || !self.punct(h, 123) {
            return hi;
        }
        let inner = self.inner_end(h, hi);
        if self.word(i, "match") {
            self.container(h + 1, inner, ContainerKind::MatchArms, skipped, out);
        } else {
            self.container(h + 1, inner, ContainerKind::Statements, skipped, out);
        }
        let e = self.group_end(h, hi);
        if self.word(i, "if") && e < hi && self.word(e, "else") {
            if e + 1 < hi && self.word(e + 1, "if") {
                return self.block_like(e + 1, hi, skipped, out);
            }
            if e + 1 < hi && self.punct(e + 1, 123) {
                let inner2 = self.inner_end(e + 1, hi);
                self.container(e + 2, inner2, ContainerKind::Statements, skipped, out);
                return self.group_end(e + 1, hi);
            }
            return e + 1;
        }
        e
    }
}

/// The tokens of a source text with their bracket map.
pub open spec fn token_view(b: Seq<u8>) -> TokenView {
    TokenView { b, toks: lex(b, 0), close: bracket_map(b, lex(b, 0)) }
}

/// The boundaries between neighbouring children of the item lists, statement
/// lists and match arm lists of a source text, in document order, as the
/// parser reads them from its tokens.
pub open spec fn parse_boundaries(b: Seq<u8>) -> Seq<Boundary> {
    token_view(b).container_from(0, lex(b, 0).len() as int, ContainerKind::Items, false, None)
}

/// Parses `source` and collects the boundaries between neighbouring children
/// of item lists, statement lists and match arm lists, in document order.
///
/// Parsing is tolerant: text that is not well-formed Rust still yields the
/// boundaries that its brackets and keywords suggest.
pub fn collect_boundaries(source: &str) -> (r: Result<Vec<Boundary>, ParseError>)
    ensures
        r matches Ok(v) && all_wf(source.spec_bytes(), v@) && v@ == parse_boundaries(
            source.spec_bytes(),
        ),
{
    let b = source.as_bytes();
    let toks = tokenize(b);
    let close = match_brackets(b, &toks);
    let n = toks.len();
    let parser = Parser { b, toks, close };
    let mut out: Vec<Boundary> = Vec::new();
    proof {
        assert(all_wf(b@, out@));
    }
    parser.container(0, n, ContainerKind::Items, false, &mut out);
    Ok(out)
}

} // verus!
