//! The spacing rules: which boundaries need a blank line, and the edits that
//! insert missing blank lines and normalize surplus ones.
use std::ops::Range;
use vstd::prelude::*;
use vstd::string::*;
use vstd::utf8::*;

use crate::config::Config;
use crate::edit::{Edit, Span};
use crate::syntax::{Boundary, ContainerKind, NodeKind};
use crate::text::{
    all_ascii, blank_at, blank_line_count, contains_crlf, find_nl, has_crlf, is_blank,
    lemma_ascii_valid, lemma_boundary_after_ascii, lemma_line_start_boundary,
    lemma_next_nl_bounds, lemma_skip_ws_boundary, lemma_valid_subrange, line_start,
    line_start_at, newline_bytes, next_nl, piece_end, push_range, repeat_bytes, skip_ws,
    skip_ws_at, string_from_valid,
};

verus! {

broadcast use vstd::utf8::group_utf8_lib;

// ---------------------------------------------------------------------------
// Specification
// ---------------------------------------------------------------------------
/// The number of blank lines that `str::lines` finds in `b[a..e]`, less one
/// (the line that the region ends): the blank lines a reader sees there.
pub open spec fn blank_lines(b: Seq<u8>, a: int, e: int) -> nat {
    let n = blank_line_count(b, a, e);
    if n == 0 {
        0
    } else {
        (n - 1) as nat
    }
}

/// `b[a..e]` without its trailing carriage returns and newlines.
pub open spec fn crlf_trim_end(b: Seq<u8>, a: int, e: int) -> int
    decreases e - a,
{
    if e > a && (b[e - 1] == 13 || b[e - 1] == 10) {
        crlf_trim_end(b, a, e - 1)
    } else {
        e
    }
}

/// End of the run of spaces and tabs that starts at `a` within `b[..e]`.
pub open spec fn indent_end(b: Seq<u8>, a: int, e: int) -> int
    decreases e - a,
{
    if a < e && (b[a] == 32 || b[a] == 9) {
        indent_end(b, a + 1, e)
    } else {
        a
    }
}

/// The pieces of `b[a..e]` (as `split_inclusive('\n')` cuts them) that are
/// not blank lines ended by a newline, put back together.
pub open spec fn without_blank_lines(b: Seq<u8>, a: int, e: int) -> Seq<u8>
    decreases e - a,
{
    if a >= e {
        Seq::empty()
    } else {
        proof {
            lemma_next_nl_bounds(b, a, e);
        }
        let pe = piece_end(b, a, e);
        let blank_line = next_nl(b, a, e) < e && is_blank(b, a, next_nl(b, a, e));
        (if blank_line {
            Seq::empty()
        } else {
            b.subrange(a, pe)
        }) + without_blank_lines(b, pe, e)
    }
}

/// Whether `b[a..e]` holds a blank line ended by a newline.
pub open spec fn has_blank_line(b: Seq<u8>, a: int, e: int) -> bool
    decreases e - a,
{
    if a >= e {
        false
    } else {
        proof {
            lemma_next_nl_bounds(b, a, e);
        }
        (next_nl(b, a, e) < e && is_blank(b, a, next_nl(b, a, e))) || has_blank_line(
            b,
            piece_end(b, a, e),
            e,
        )
    }
}

/// The trimmed line content that starts at `t` and ends at `ce` begins with
/// `//` or `#`: a comment or an attribute.
pub open spec fn starts_trivia(b: Seq<u8>, t: int, ce: int) -> bool {
    (t + 2 <= ce && b[t] == 47 && b[t + 1] == 47) || (t < ce && b[t] == 35)
}

/// Scans the lines of `b[ls..end]`: once a comment or attribute line has been
/// seen, blank lines before the first code line are removed, from the first
/// such blank line to the code line's first non-whitespace character.
pub open spec fn trivia_scan(b: Seq<u8>, ls: int, end: int, saw: bool, first_blank: Option<int>) -> Option<Span>
    decreases end - ls,
{
    if ls < 0 || ls >= end {
        None
    } else {
        proof {
            lemma_next_nl_bounds(b, ls, end);
        }
        let le = next_nl(b, ls, end);
        let next = if le < end {
            le + 1
        } else {
            le
        };
        let ce = crlf_trim_end(b, ls, next);
        let t = skip_ws(b, ls, ce);
        if is_blank(b, ls, ce) {
            trivia_scan(
                b,
                next,
                end,
                saw,
                if saw && first_blank is None {
                    Some(ls)
                } else {
                    first_blank
                },
            )
        } else if starts_trivia(b, t, ce) {
            trivia_scan(b, next, end, true, first_blank)
        } else {
            match first_blank {
                None => None,
                Some(fb) => if has_blank_line(b, fb, t) {
                    Some(Span { start: fb, end: t, text: without_blank_lines(b, fb, t) })
                } else {
                    None
                },
            }
        }
    }
}

/// The edit that removes blank lines between comments or attributes and the
/// code they belong to, in the lines of `b[start..end]`.
pub open spec fn comment_trivia_fix(b: Seq<u8>, start: int, end: int) -> Option<Span> {
    trivia_scan(b, start, end, false, None)
}

/// Start of the whitespace region of a boundary, moved back onto a carriage
/// return when the region starts inside a CRLF pair.
pub open spec fn region_start(b: Seq<u8>, bd: Boundary) -> int {
    let rs = bd.range.start as int;
    if rs > 0 && b[rs - 1] == 13 && rs < b.len() && b[rs] == 10 {
        rs - 1
    } else {
        rs
    }
}

/// The edit that shrinks the whitespace before a boundary's next node to
/// `required` blank lines, keeping the indentation of the line it ends on.
pub open spec fn boundary_fix(b: Seq<u8>, bd: Boundary, required: nat) -> Option<Span> {
    let start = region_start(b, bd);
    let end = skip_ws(b, start, bd.range.end as int);
    if blank_lines(b, start, end) <= required {
        None
    } else {
        let is = line_start(b, end);
        Some(
            Span {
                start,
                end,
                text: repeat_bytes(newline_bytes(b), required + 1) + b.subrange(
                    is,
                    indent_end(b, is, end),
                ),
            },
        )
    }
}

/// I001: a blank line between sibling items when either side is block-bodied.
pub open spec fn rule_block_bodied_item(bd: Boundary) -> bool {
    bd.parent_kind == ContainerKind::Items && (bd.previous.kind == NodeKind::BlockBodiedItem
        || bd.next.kind == NodeKind::BlockBodiedItem)
}

/// S001/S002: a blank line after a multiline `let` statement.
pub open spec fn rule_multiline_let(bd: Boundary) -> bool {
    bd.parent_kind == ContainerKind::Statements && bd.previous.kind == NodeKind::LetStatement
        && bd.previous.multiline
}

/// S003: a blank line after a standalone multiline block-expression statement.
pub open spec fn rule_multiline_block_statement(bd: Boundary) -> bool {
    bd.parent_kind == ContainerKind::Statements && bd.previous.kind
        == NodeKind::BlockExpressionStatement && bd.previous.multiline
}

/// A blank line after a multiline `const`, `static` or `type` item.
pub open spec fn rule_multiline_declaration(bd: Boundary) -> bool {
    bd.parent_kind == ContainerKind::Items && bd.previous.kind == NodeKind::MultilineDeclaration
}

/// A blank line after a multiline macro statement.
pub open spec fn rule_multiline_macro_statement(bd: Boundary) -> bool {
    bd.parent_kind == ContainerKind::Statements && bd.previous.kind
        == NodeKind::MultilineMacroStatement
}

/// With `match_arm_spacing`, a blank line between match arms when either spans several lines.
pub open spec fn rule_match_arm(bd: Boundary, config: Config) -> bool {
    config.rules.match_arm_spacing && bd.parent_kind == ContainerKind::MatchArms && (
    bd.previous.multiline || bd.next.multiline)
}

/// A blank line around `mod` items.
pub open spec fn rule_module(bd: Boundary) -> bool {
    bd.parent_kind == ContainerKind::Items && (bd.previous.kind == NodeKind::Module
        || bd.next.kind == NodeKind::Module)
}

/// The number of blank lines a boundary needs: the largest any rule asks for.
pub open spec fn required_lines(bd: Boundary, config: Config) -> nat {
    if rule_block_bodied_item(bd) || rule_multiline_let(bd) || rule_multiline_block_statement(bd)
        || rule_multiline_declaration(bd) || rule_match_arm(bd, config)
        || rule_multiline_macro_statement(bd) || rule_module(bd) {
        1
    } else {
        0
    }
}

/// Boundaries inside skipped syntax, and statement boundaries next to skipped
/// syntax, are left alone.
pub open spec fn boundary_left_alone(bd: Boundary) -> bool {
    (bd.previous.skipped && bd.next.skipped) || (bd.parent_kind == ContainerKind::Statements && (
    bd.previous.skipped || bd.next.skipped))
}

pub open spec fn opt_seq(o: Option<Span>) -> Seq<Span> {
    match o {
        Some(s) => seq![s],
        None => Seq::empty(),
    }
}

/// The edits for one boundary: shrink surplus blank lines (only when
/// normalizing), remove blank lines inside the next node's leading trivia (only
/// when normalizing), and insert a missing blank line.
pub open spec fn boundary_edits(b: Seq<u8>, bd: Boundary, config: Config) -> Seq<Span> {
    let required = required_lines(bd, config);
    let existing = blank_lines(b, bd.range.start as int, bd.range.end as int);
    let normalize = config.rules.normalize_blank_lines;
    if boundary_left_alone(bd) || required == 0 || (existing > required && !normalize) {
        Seq::empty()
    } else {
        (if existing > required {
            opt_seq(boundary_fix(b, bd, required))
        } else {
            Seq::empty()
        }) + (if normalize {
            opt_seq(
                comment_trivia_fix(
                    b,
                    line_start(b, bd.next.leading_range.start as int),
                    bd.next.range.end as int,
                ),
            )
        } else {
            Seq::empty()
        }) + (if existing >= required {
            Seq::empty()
        } else {
            seq![
                Span {
                    start: bd.insertion_offset as int,
                    end: bd.insertion_offset as int,
                    text: newline_bytes(b),
                },
            ]
        })
    }
}

/// The edits of a sequence of boundaries, one boundary after the other.
pub open spec fn boundaries_edits(b: Seq<u8>, bds: Seq<Boundary>, config: Config) -> Seq<Span>
    decreases bds.len(),
{
    if bds.len() == 0 {
        Seq::empty()
    } else {
        boundaries_edits(b, bds.drop_last(), config) + boundary_edits(b, bds.last(), config)
    }
}

/// Start of the first piece of `b[a..]` that is not blank, or the end.
pub open spec fn first_content(b: Seq<u8>, a: int) -> int
    decreases b.len() - a,
{
    if a < 0 || a >= b.len() {
        b.len() as int
    } else {
        proof {
            lemma_next_nl_bounds(b, a, b.len() as int);
        }
        let pe = piece_end(b, a, b.len() as int);
        if !is_blank(b, a, pe) {
            a
        } else {
            first_content(b, pe)
        }
    }
}

/// End of the text of the last piece of `b[a..]` that is not blank, without its
/// line ending; `acc` when there is none.
pub open spec fn last_content_end(b: Seq<u8>, a: int, acc: int) -> int
    decreases b.len() - a,
{
    if a < 0 || a >= b.len() {
        acc
    } else {
        proof {
            lemma_next_nl_bounds(b, a, b.len() as int);
        }
        let pe = piece_end(b, a, b.len() as int);
        last_content_end(
            b,
            pe,
            if !is_blank(b, a, pe) {
                crlf_trim_end(b, a, pe)
            } else {
                acc
            },
        )
    }
}

/// The edits at the ends of a file, when normalizing: drop leading blank
/// lines, remove blank lines after the leading comments, and end the file with
/// exactly one line ending.
pub open spec fn file_boundary_edits(b: Seq<u8>, config: Config) -> Seq<Span> {
    if !config.rules.normalize_blank_lines || is_blank(b, 0, b.len() as int) {
        Seq::empty()
    } else {
        let first = first_content(b, 0);
        let last = last_content_end(b, 0, 0);
        (if first > 0 {
            seq![Span { start: 0, end: first, text: Seq::empty() }]
        } else {
            Seq::empty()
        }) + opt_seq(comment_trivia_fix(b, first, b.len() as int)) + (if b.subrange(
            last,
            b.len() as int,
        ) != newline_bytes(b) {
            seq![Span { start: last, end: b.len() as int, text: newline_bytes(b) }]
        } else {
            Seq::empty()
        })
    }
}

/// The spans of some edits.
pub open spec fn edit_spans(edits: Seq<Edit>) -> Seq<Span> {
    edits.map_values(|e: Edit| e.span())
}

pub open spec fn opt_span(o: Option<Edit>) -> Option<Span> {
    match o {
        Some(e) => Some(e.span()),
        None => None,
    }
}

/// The ranges of a boundary lie within a text of `n` bytes.
pub open spec fn boundary_in_bounds(bd: Boundary, n: int) -> bool {
    &&& bd.range.start <= bd.range.end <= n
    &&& bd.next.leading_range.start <= n
    &&& bd.next.range.end <= n
}

pub open spec fn opt_int(o: Option<usize>) -> Option<int> {
    match o {
        Some(v) => Some(v as int),
        None => None,
    }
}

// ---------------------------------------------------------------------------
// Implementation
// ---------------------------------------------------------------------------
/// The line ending of the source: CRLF if it holds one, else LF.
fn newline_for(source: &str) -> (r: &'static str)
    ensures
        encode_utf8(r@) == newline_bytes(source.spec_bytes()),
{
    proof {
        reveal_strlit("\r\n");
        reveal_strlit("\n");
    }
    if contains_crlf(source.as_bytes()) {
        let r = "\r\n";
        proof {
            assert(is_ascii_chars(r@));
            assert(encode_utf8(r@) =~= seq![13u8, 10u8]);
        }
        r
    } else {
        let r = "\n";
        proof {
            assert(is_ascii_chars(r@));
            assert(encode_utf8(r@) =~= seq![10u8]);
        }
        r
    }
}

fn count_blank_lines(b: &[u8], a: usize, e: usize) -> (n: usize)
    requires
        a <= e <= b@.len(),
    ensures
        n == blank_line_count(b@, a as int, e as int),
{
    let mut n: usize = 0;
    let mut p = a;
    while p < e
        invariant
            a <= p <= e <= b@.len(),
            n <= p - a,
            n + blank_line_count(b@, p as int, e as int) == blank_line_count(
                b@,
                a as int,
                e as int,
            ),
        decreases e - p,
    {
        let nl = find_nl(b, p, e);
        if blank_at(b, p, nl) {
            n = n + 1;
        }
        p = if nl < e {
            nl + 1
        } else {
            e
        };
    }
    n
}

fn blank_lines_between(b: &[u8], a: usize, e: usize) -> (n: usize)
    requires
        a <= e <= b@.len(),
    ensures
        n == blank_lines(b@, a as int, e as int),
{
    let n = count_blank_lines(b, a, e);
    if n == 0 {
        0
    } else {
        n - 1
    }
}

/// Counts completely empty physical lines in a whitespace region: the blank
/// lines of `text`, less the one that ends the region.
pub fn blank_lines_in(text: &str) -> (n: usize)
    ensures
        n == blank_lines(text.spec_bytes(), 0, text.spec_bytes().len() as int),
{
    let b = text.as_bytes();
    blank_lines_between(b, 0, b.len())
}

fn crlf_trim_end_at(b: &[u8], a: usize, e: usize) -> (r: usize)
    requires
        a <= e <= b@.len(),
    ensures
        r == crlf_trim_end(b@, a as int, e as int),
        a <= r <= e,
{
    let mut r = e;
    while r > a && (b[r - 1] == 13 || b[r - 1] == 10)
        invariant
            a <= r <= e <= b@.len(),
            crlf_trim_end(b@, a as int, r as int) == crlf_trim_end(b@, a as int, e as int),
        decreases r,
    {
        r = r - 1;
    }
    r
}

fn indent_end_at(b: &[u8], a: usize, e: usize) -> (r: usize)
    requires
        a <= e <= b@.len(),
    ensures
        r == indent_end(b@, a as int, e as int),
        a <= r <= e,
        forall|k: int| a <= k < r ==> b@[k] == 32 || b@[k] == 9,
{
    let mut r = a;
    while r < e && (b[r] == 32 || b[r] == 9)
        invariant
            a <= r <= e <= b@.len(),
            indent_end(b@, r as int, e as int) == indent_end(b@, a as int, e as int),
            forall|k: int| a <= k < r ==> b@[k] == 32 || b@[k] == 9,
        decreases e - r,
    {
        r = r + 1;
    }
    r
}

/// The text `b[a..e]` without its blank lines that end in a newline, or
/// `None` when it has none.
fn remove_blank_lines(b: &[u8], a: usize, e: usize) -> (r: Option<String>)
    requires
        a <= e <= b@.len(),
        valid_utf8(b@),
        is_char_boundary(b@, a as int),
        is_char_boundary(b@, e as int),
    ensures
        match r {
            Some(s) => has_blank_line(b@, a as int, e as int) && encode_utf8(s@)
                == without_blank_lines(b@, a as int, e as int),
            None => !has_blank_line(b@, a as int, e as int),
        },
{
    let mut changed = false;
    let mut out: Vec<u8> = Vec::new();
    let mut p = a;
    proof {
        assert(valid_utf8(out@)) by {
            assert(out@ =~= Seq::<u8>::empty());
        }
    }
    while p < e
        invariant
            a <= p <= e <= b@.len(),
            valid_utf8(b@),
            is_char_boundary(b@, p as int),
            is_char_boundary(b@, e as int),
            (changed || has_blank_line(b@, p as int, e as int)) == has_blank_line(
                b@,
                a as int,
                e as int,
            ),
            out@ + without_blank_lines(b@, p as int, e as int) == without_blank_lines(
                b@,
                a as int,
                e as int,
            ),
            valid_utf8(out@),
        decreases e - p,
    {
        let nl = find_nl(b, p, e);
        let pe = if nl < e {
            nl + 1
        } else {
            e
        };
        proof {
            lemma_next_nl_bounds(b@, p as int, e as int);
            if nl < e {
                lemma_boundary_after_ascii(b@, pe as int);
            }
        }
        let blank_line = nl < e && blank_at(b, p, nl);
        if blank_line {
            changed = true;
        } else {
            let ghost before = out@;
            proof {
                lemma_valid_subrange(b@, p as int, pe as int);
            }
            push_range(&mut out, b, p, pe);
            proof {
                valid_utf8_concat(before, b@.subrange(p as int, pe as int));
            }
        }
        p = pe;
    }
    if changed {
        Some(string_from_valid(out))
    } else {
        None
    }
}

/// Removes blank lines that separate comments or attributes from the code
/// they belong to, scanning the lines of `source[start..end]`.
fn normalize_comment_trivia(source: &str, start: usize, end: usize) -> (r: Option<Edit>)
    requires
        start <= source.spec_bytes().len(),
        end <= source.spec_bytes().len(),
        is_char_boundary(source.spec_bytes(), start as int),
    ensures
        opt_span(r) == comment_trivia_fix(source.spec_bytes(), start as int, end as int),
{
    let b = source.as_bytes();
    let ghost bs = b@;
    proof {
        encode_utf8_valid_utf8(source@);
    }
    let mut saw = false;
    let mut first_blank: Option<usize> = None;
    let mut ls = start;
    while ls < end
        invariant
            bs == b@,
            bs == source.spec_bytes(),
            valid_utf8(bs),
            end <= bs.len(),
            ls <= bs.len(),
            ls < end ==> is_char_boundary(bs, ls as int),
            first_blank matches Some(fb) ==> fb <= ls && is_char_boundary(bs, fb as int),
            trivia_scan(bs, ls as int, end as int, saw, opt_int(first_blank)) == trivia_scan(
                bs,
                start as int,
                end as int,
                false,
                None,
            ),
        decreases end - ls,
    {
        let le = find_nl(b, ls, end);
        let next = if le < end {
            le + 1
        } else {
            le
        };
        proof {
            lemma_next_nl_bounds(bs, ls as int, end as int);
            if le < end {
                lemma_boundary_after_ascii(bs, next as int);
            }
        }
        let ce = crlf_trim_end_at(b, ls, next);
        let t = skip_ws_at(b, ls, ce);
        proof {
            lemma_skip_ws_boundary(bs, ls as int, ce as int);
        }
        if t >= ce {
            if saw && first_blank.is_none() {
                first_blank = Some(ls);
            }
            ls = next;
            continue ;
        }
        if (ce - t >= 2 && b[t] == 47 && b[t + 1] == 47) || b[t] == 35 {
            saw = true;
            ls = next;
            continue ;
        }
        match first_blank {
            None => {
                return None;
            },
            Some(fb) => {
                match remove_blank_lines(b, fb, t) {
                    Some(text) => {
                        return Some(Edit { range: Range { start: fb, end: t }, replacement: text });
                    },
                    None => {
                        return None;
                    },
                }
            },
        }
    }
    None
}

/// Shrinks the whitespace in front of a boundary's next node to `required`
/// blank lines. Only whitespace before the next node's leading trivia is
/// replaced, so attached comments and attributes stay where they are.
fn normalize_boundary(source: &str, boundary: &Boundary, required: usize) -> (r: Option<Edit>)
    requires
        boundary.range.start <= boundary.range.end <= source.spec_bytes().len(),
    ensures
        opt_span(r) == boundary_fix(source.spec_bytes(), *boundary, required as nat),
{
    let b = source.as_bytes();
    let ghost bs = b@;
    let start = if boundary.range.start > 0 && b[boundary.range.start - 1] == 13
        && boundary.range.start < b.len() && b[boundary.range.start] == 10 {
        boundary.range.start - 1
    } else {
        boundary.range.start
    };
    let end = skip_ws_at(b, start, boundary.range.end);
    proof {
        lemma_skip_ws_le(bs, start as int, boundary.range.end as int);
    }
    let existing = blank_lines_between(b, start, end);
    if existing <= required {
        return None;
    }
    let indentation_start = line_start_at(b, end);
    let indentation_end = indent_end_at(b, indentation_start, end);
    let newline = newline_for(source).as_bytes();
    let mut out: Vec<u8> = Vec::new();
    proof {
        assert(newline@ == newline_bytes(bs));
        assert(all_ascii(newline@)) by {
            if has_crlf(bs) {
                assert(newline@ =~= seq![13u8, 10u8]);
            } else {
                assert(newline@ =~= seq![10u8]);
            }
        }
    }
    push_all_bytes(&mut out, newline);
    let mut k: usize = 0;
    proof {
        assert(repeat_bytes(newline@, 0) =~= Seq::<u8>::empty());
        assert(out@ =~= repeat_bytes(newline@, 1));
    }
    while k < required
        invariant
            k <= required,
            newline@ == newline_bytes(bs),
            all_ascii(newline@),
            out@ == repeat_bytes(newline@, (k + 1) as nat),
            all_ascii(out@),
        decreases required - k,
    {
        let ghost before = out@;
        push_all_bytes(&mut out, newline);
        proof {
            assert(all_ascii(out@)) by {
                assert forall|i: int| 0 <= i < out@.len() implies #[trigger] out@[i] < 128 by {
                    if i < before.len() {
                        assert(out@[i] == before[i]);
                    } else {
                        assert(out@[i] == newline@[i - before.len()]);
                    }
                }
            }
        }
        k = k + 1;
    }
    proof {
        assert(all_ascii(out@));
    }
    let ghost before = out@;
    push_range(&mut out, b, indentation_start, indentation_end);
    proof {
        assert(all_ascii(out@)) by {
            assert forall|i: int| 0 <= i < out@.len() implies #[trigger] out@[i] < 128 by {
                if i < before.len() {
                    assert(out@[i] == before[i]);
                } else {
                    assert(out@[i] == bs[indentation_start + i - before.len()]);
                }
            }
        }
        lemma_ascii_valid(out@);
        assert(out@ == repeat_bytes(newline_bytes(bs), (required + 1) as nat) + bs.subrange(
            indentation_start as int,
            indentation_end as int,
        ));
        assert(start == region_start(bs, *boundary));
    }
    Some(Edit { range: Range { start, end }, replacement: string_from_valid(out) })
}

fn push_all_bytes(out: &mut Vec<u8>, b: &[u8])
    ensures
        final(out)@ == old(out)@ + b@,
{
    crate::text::push_all(out, b);
}

proof fn lemma_skip_ws_le(b: Seq<u8>, a: int, e: int)
    ensures
        a <= e ==> a <= skip_ws(b, a, e) <= e,
        a > e ==> skip_ws(b, a, e) == a,
    decreases e - a,
{
    if a < e && crate::text::ws_width(b, a, e) > 0 {
        lemma_skip_ws_le(b, a + crate::text::ws_width(b, a, e), e);
    }
}

fn rule_multiline_declaration_boundary(boundary: &Boundary) -> (r: usize)
    ensures
        r == if rule_multiline_declaration(*boundary) {
            1usize
        } else {
            0
        },
{
    if boundary.parent_kind == ContainerKind::Items && boundary.previous.kind
        == NodeKind::MultilineDeclaration {
        1
    } else {
        0
    }
}

fn rule_multiline_macro_statement_boundary(boundary: &Boundary) -> (r: usize)
    ensures
        r == if rule_multiline_macro_statement(*boundary) {
            1usize
        } else {
            0
        },
{
    if boundary.parent_kind == ContainerKind::Statements && boundary.previous.kind
        == NodeKind::MultilineMacroStatement {
        1
    } else {
        0
    }
}

fn rule_match_arm_boundary(boundary: &Boundary, config: &Config) -> (r: usize)
    ensures
        r == if rule_match_arm(*boundary, *config) {
            1usize
        } else {
            0
        },
{
    if config.rules.match_arm_spacing && boundary.parent_kind == ContainerKind::MatchArms && (
    boundary.previous.multiline || boundary.next.multiline) {
        1
    } else {
        0
    }
}

fn rule_module_boundary(boundary: &Boundary) -> (r: usize)
    ensures
        r == if rule_module(*boundary) {
            1usize
        } else {
            0
        },
{
    if boundary.parent_kind == ContainerKind::Items && (boundary.previous.kind == NodeKind::Module
        || boundary.next.kind == NodeKind::Module) {
        1
    } else {
        0
    }
}

/// I001: require a blank line between sibling items when either side is
/// block-bodied.
fn rule_block_bodied_item_boundary(boundary: &Boundary) -> (r: usize)
    ensures
        r == if rule_block_bodied_item(*boundary) {
            1usize
        } else {
            0
        },
{
    if boundary.parent_kind == ContainerKind::Items && (boundary.previous.kind
        == NodeKind::BlockBodiedItem || boundary.next.kind == NodeKind::BlockBodiedItem) {
        1
    } else {
        0
    }
}

/// S001/S002: require a blank line after a multiline `let` statement; a
/// multiline `let-else` is a `let` statement too.
fn rule_multiline_let_boundary(boundary: &Boundary) -> (r: usize)
    ensures
        r == if rule_multiline_let(*boundary) {
            1usize
        } else {
            0
        },
{
    if boundary.parent_kind == ContainerKind::Statements && boundary.previous.kind
        == NodeKind::LetStatement && boundary.previous.multiline {
        1
    } else {
        0
    }
}

/// S003: require a blank line after a standalone multiline block-expression
/// statement.
fn rule_multiline_block_statement_boundary(boundary: &Boundary) -> (r: usize)
    ensures
        r == if rule_multiline_block_statement(*boundary) {
            1usize
        } else {
            0
        },
{
    if boundary.parent_kind == ContainerKind::Statements && boundary.previous.kind
        == NodeKind::BlockExpressionStatement && boundary.previous.multiline {
        1
    } else {
        0
    }
}

/// The number of blank lines that a boundary needs: the largest that any rule
/// asks for.
fn required_blank_lines(boundary: &Boundary, config: &Config) -> (r: usize)
    ensures
        r == required_lines(*boundary, *config),
{
    let counts = [
        rule_block_bodied_item_boundary(boundary),
        rule_multiline_let_boundary(boundary),
        rule_multiline_block_statement_boundary(boundary),
        rule_multiline_declaration_boundary(boundary),
        rule_multiline_macro_statement_boundary(boundary),
        rule_match_arm_boundary(boundary, config),
        rule_module_boundary(boundary),
    ];
    let mut max: usize = 0;
    let mut i: usize = 0;
    while i < 7
        invariant
            i <= 7,
            counts@.len() == 7,
            forall|k: int| 0 <= k < 7 ==> counts@[k] <= 1,
            max <= 1,
            max == 1 <==> exists|k: int| 0 <= k < i && #[trigger] counts@[k] == 1,
        decreases 7 - i,
    {
        if counts[i] > max {
            max = counts[i];
        }
        i = i + 1;
    }
    proof {
        if required_lines(*boundary, *config) == 1 {
            if rule_block_bodied_item(*boundary) {
                assert(counts@[0] == 1);
            } else if rule_multiline_let(*boundary) {
                assert(counts@[1] == 1);
            } else if rule_multiline_block_statement(*boundary) {
                assert(counts@[2] == 1);
            } else if rule_multiline_declaration(*boundary) {
                assert(counts@[3] == 1);
            } else if rule_multiline_macro_statement(*boundary) {
                assert(counts@[4] == 1);
            } else if rule_match_arm(*boundary, *config) {
                assert(counts@[5] == 1);
            } else {
                assert(counts@[6] == 1);
            }
        }
    }
    max
}

fn push_opt(edits: &mut Vec<Edit>, e: Option<Edit>)
    ensures
        edit_spans(final(edits)@) == edit_spans(old(edits)@) + opt_seq(opt_span(e)),
{
    let ghost before = edits@;
    match e {
        Some(e) => {
            edits.push(e);
        },
        None => {},
    }
    assert(edit_spans(edits@) =~= edit_spans(before) + opt_seq(opt_span(e)));
}

fn push_edit(edits: &mut Vec<Edit>, e: Edit)
    ensures
        edit_spans(final(edits)@) == edit_spans(old(edits)@) + seq![e.span()],
{
    let ghost before = edits@;
    edits.push(e);
    assert(edit_spans(edits@) =~= edit_spans(before) + seq![e.span()]);
}

/// The edits for one boundary (see [`boundary_edits`]).
///
/// A boundary adjacent to a skipped node is still outside that node and may
/// need spacing. Boundaries wholly inside skipped syntax have both sibling
/// nodes marked as skipped and stay untouched; so do statement boundaries next
/// to skipped syntax.
fn edit_for_boundary(source: &str, boundary: &Boundary, config: &Config) -> (r: Vec<Edit>)
    requires
        boundary_in_bounds(*boundary, source.spec_bytes().len() as int),
    ensures
        edit_spans(r@) == boundary_edits(source.spec_bytes(), *boundary, *config),
{
    let b = source.as_bytes();
    let ghost bs = b@;
    let mut edits: Vec<Edit> = Vec::new();
    if boundary.previous.skipped && boundary.next.skipped || boundary.parent_kind
        == ContainerKind::Statements && (boundary.previous.skipped || boundary.next.skipped) {
        assert(edit_spans(edits@) =~= Seq::<Span>::empty());
        return edits;
    }
    let required = required_blank_lines(boundary, config);
    if required == 0 {
        assert(edit_spans(edits@) =~= Seq::<Span>::empty());
        return edits;
    }
    let existing = blank_lines_between(b, boundary.range.start, boundary.range.end);
    if existing > required {
        if !config.rules.normalize_blank_lines {
            assert(edit_spans(edits@) =~= Seq::<Span>::empty());
            return edits;
        }
        push_opt(&mut edits, normalize_boundary(source, boundary, required));
    }
    let ghost e1 = edit_spans(edits@);
    assert(e1 == (if existing > required {
        opt_seq(boundary_fix(bs, *boundary, required as nat))
    } else {
        Seq::<Span>::empty()
    })) by {
        if existing <= required {
            assert(edit_spans(edits@) =~= Seq::<Span>::empty());
        } else {
            assert(Seq::<Span>::empty() + opt_seq(boundary_fix(bs, *boundary, required as nat))
                =~= opt_seq(boundary_fix(bs, *boundary, required as nat)));
        }
    }
    if config.rules.normalize_blank_lines {
        let scan_start = line_start_at(b, boundary.next.leading_range.start);
        proof {
            encode_utf8_valid_utf8(source@);
            lemma_line_start_boundary(bs, boundary.next.leading_range.start as int);
        }
        push_opt(&mut edits, normalize_comment_trivia(source, scan_start, boundary.next.range.end));
    }
    let ghost e2 = edit_spans(edits@);
    if existing >= required {
        return edits;
    }
    push_edit(&mut edits, Edit::insert(boundary.insertion_offset, newline_for(source)));
    edits
}

/// The edits for every boundary, one boundary after the other.
pub fn edits_for_boundaries(source: &str, boundaries: &[Boundary], config: &Config) -> (r: Vec<
    Edit,
>)
    requires
        forall|i: int|
            0 <= i < boundaries@.len() ==> boundary_in_bounds(
                #[trigger] boundaries@[i],
                source.spec_bytes().len() as int,
            ),
    ensures
        edit_spans(r@) == boundaries_edits(source.spec_bytes(), boundaries@, *config),
{
    let mut edits: Vec<Edit> = Vec::new();
    let mut i: usize = 0;
    assert(boundaries@.take(0) =~= Seq::<Boundary>::empty());
    while i < boundaries.len()
        invariant
            i <= boundaries@.len(),
            forall|k: int|
                0 <= k < boundaries@.len() ==> boundary_in_bounds(
                    #[trigger] boundaries@[k],
                    source.spec_bytes().len() as int,
                ),
            edit_spans(edits@) == boundaries_edits(
                source.spec_bytes(),
                boundaries@.take(i as int),
                *config,
            ),
        decreases boundaries@.len() - i,
    {
        let mut more = edit_for_boundary(source, &boundaries[i], config);
        let ghost before = edits@;
        let ghost added = more@;
        edits.append(&mut more);
        proof {
            assert(edit_spans(edits@) =~= edit_spans(before) + edit_spans(added));
            assert(boundaries@.take(i + 1).drop_last() =~= boundaries@.take(i as int));
        }
        i = i + 1;
    }
    assert(boundaries@.take(boundaries@.len() as int) =~= boundaries@);
    edits
}

fn first_content_at(b: &[u8]) -> (r: usize)
    ensures
        r == first_content(b@, 0),
        r <= b@.len(),
{
    let n = b.len();
    let mut a: usize = 0;
    while a < n
        invariant
            n == b@.len(),
            a <= n,
            first_content(b@, a as int) == first_content(b@, 0),
        decreases n - a,
    {
        let nl = find_nl(b, a, n);
        let pe = if nl < n {
            nl + 1
        } else {
            n
        };
        if !blank_at(b, a, pe) {
            return a;
        }
        a = pe;
    }
    a
}

fn last_content_end_at(b: &[u8]) -> (r: usize)
    ensures
        r == last_content_end(b@, 0, 0),
        r <= b@.len(),
{
    let n = b.len();
    let mut a: usize = 0;
    let mut acc: usize = 0;
    while a < n
        invariant
            n == b@.len(),
            a <= n,
            acc <= n,
            last_content_end(b@, a as int, acc as int) == last_content_end(b@, 0, 0),
        decreases n - a,
    {
        let nl = find_nl(b, a, n);
        let pe = if nl < n {
            nl + 1
        } else {
            n
        };
        if !blank_at(b, a, pe) {
            acc = crlf_trim_end_at(b, a, pe);
        }
        a = pe;
    }
    acc
}

fn tail_equals(b: &[u8], from: usize, t: &[u8]) -> (r: bool)
    requires
        from <= b@.len(),
    ensures
        r == (b@.subrange(from as int, b@.len() as int) == t@),
{
    let n = b.len();
    if n - from != t.len() {
        proof {
            assert(b@.subrange(from as int, n as int).len() != t@.len());
        }
        return false;
    }
    let mut i: usize = 0;
    while i < t.len()
        invariant
            from <= n == b@.len(),
            n - from == t@.len(),
            i <= t@.len(),
            forall|k: int| 0 <= k < i ==> b@[from + k] == t@[k],
        decreases t@.len() - i,
    {
        if b[from + i] != t[i] {
            proof {
                assert(b@.subrange(from as int, n as int)[i as int] != t@[i as int]);
            }
            return false;
        }
        i = i + 1;
    }
    assert(b@.subrange(from as int, n as int) =~= t@);
    true
}

/// The edits at the ends of a file (see [`file_boundary_edits`]).
pub fn edits_for_file_boundaries(source: &str, config: &Config) -> (r: Vec<Edit>)
    ensures
        edit_spans(r@) == file_boundary_edits(source.spec_bytes(), *config),
{
    let b = source.as_bytes();
    let ghost bs = b@;
    let mut edits: Vec<Edit> = Vec::new();
    if !config.rules.normalize_blank_lines || blank_at(b, 0, b.len()) {
        assert(edit_spans(edits@) =~= Seq::<Span>::empty());
        return edits;
    }
    let first_content = first_content_at(b);
    if first_content > 0 {
        let e = Edit { range: Range { start: 0, end: first_content }, replacement: String::new() };
        assert(encode_utf8(e.replacement@) =~= Seq::<u8>::empty());
        push_edit(&mut edits, e);
    }
    let ghost e1 = edit_spans(edits@);
    proof {
        encode_utf8_valid_utf8(source@);
        lemma_first_content_boundary(bs, 0);
    }
    push_opt(&mut edits, normalize_comment_trivia(source, first_content, b.len()));
    let last_content_end = last_content_end_at(b);
    let newline = newline_for(source);
    if !tail_equals(b, last_content_end, newline.as_bytes()) {
        push_edit(&mut edits, Edit::replace(Range { start: last_content_end, end: b.len() }, newline));
    }
    proof {
        if first_content > 0 {
            assert(e1 =~= seq![Span { start: 0, end: first_content as int, text: Seq::empty() }]);
        } else {
            assert(e1 =~= Seq::<Span>::empty());
        }
    }
    edits
}

/// The start of the first non-blank piece is a character boundary.
pub proof fn lemma_first_content_boundary(b: Seq<u8>, a: int)
    requires
        valid_utf8(b),
        0 <= a <= b.len(),
        is_char_boundary(b, a),
    ensures
        is_char_boundary(b, first_content(b, a)),
        0 <= first_content(b, a) <= b.len(),
    decreases b.len() - a,
{
    if a < b.len() {
        lemma_next_nl_bounds(b, a, b.len() as int);
        let pe = piece_end(b, a, b.len() as int);
        if is_blank(b, a, pe) {
            if next_nl(b, a, b.len() as int) < b.len() {
                lemma_boundary_after_ascii(b, pe);
            }
            lemma_first_content_boundary(b, pe);
        }
    } else {
        crate::text::lemma_boundary_iff(b, b.len() as int);
    }
}

} // verus!
