//! Properties of the formatter that hold across its functions.
use vstd::prelude::*;

use crate::config::Config;
use crate::edit::{
    applied, edits_fault, fault_from, insert_pos, sort_spans, span_le, spans, splice, Edit, Span,
};
use crate::formatter::format_edits;
use crate::rules::edit_spans;
use crate::rules::{
    boundaries_edits, boundary_edits, boundary_fix, boundary_left_alone, file_boundary_edits,
    comment_trivia_fix, first_content, indent_end, last_content_end, opt_seq, region_start, required_lines, trivia_scan,
    without_blank_lines,
};
use crate::syntax::{all_wf, boundary_wf, newline_count, Boundary, ContainerKind, NodeKind};
use crate::text::{
    has_crlf, is_blank, lemma_boundary_after_ascii, lemma_boundary_iff, lemma_line_start_boundary, lemma_next_nl_bounds,
    lemma_scalar_step, lemma_skip_ws_boundary, lemma_valid_subrange, line_start, newline_bytes,
    next_nl, piece_end, repeat_bytes, skip_ws, utf8_width, ws_width,
};
use vstd::utf8::*;
use vstd::multiset::Multiset;

verus! {

/// Applying no edits leaves the source as it is, and cannot fail.
pub proof fn law_no_edits_keep_source(b: Seq<u8>)
    ensures
        edits_fault(b, Seq::<Edit>::empty()) is None,
        applied(b, Seq::<Edit>::empty()) == b,
{
    assert(spans(Seq::<Edit>::empty()) =~= Seq::<Span>::empty());
    assert(sort_spans(Seq::<Span>::empty()) =~= Seq::<Span>::empty());
    assert(b.subrange(0, b.len() as int) =~= b);
}

/// An edit that inserts a line ending of the file and replaces nothing.
pub open spec fn inserts_newline(b: Seq<u8>, s: Span) -> bool {
    s.start == s.end && s.text == newline_bytes(b)
}

/// Without blank-line normalization, a boundary's edits only insert line endings.
pub proof fn law_boundary_without_normalization_only_inserts(b: Seq<u8>, bd: Boundary, config: Config)
    requires
        !config.rules.normalize_blank_lines,
    ensures
        forall|k: int|
            0 <= k < boundary_edits(b, bd, config).len() ==> inserts_newline(
                b,
                #[trigger] boundary_edits(b, bd, config)[k],
            ),
{
    let e = boundary_edits(b, bd, config);
    let required = required_lines(bd, config);
    let existing = crate::rules::blank_lines(b, bd.range.start as int, bd.range.end as int);
    if !(boundary_left_alone(bd) || required == 0 || (existing > required
        && !config.rules.normalize_blank_lines)) {
        assert(existing <= required);
        assert(e =~= Seq::<Span>::empty() + Seq::<Span>::empty() + (if existing >= required {
            Seq::<Span>::empty()
        } else {
            seq![
                Span {
                    start: bd.insertion_offset as int,
                    end: bd.insertion_offset as int,
                    text: newline_bytes(b),
                },
            ]
        }));
    }
}

/// Without blank-line normalization, formatting only inserts line endings:
/// every edit derived from any boundaries, and at the ends of the file, is an
/// insertion of the file's line ending.
pub proof fn law_without_normalization_only_inserts(b: Seq<u8>, bds: Seq<Boundary>, config: Config)
    requires
        !config.rules.normalize_blank_lines,
    ensures
        forall|k: int|
            0 <= k < format_edits(b, bds, config).len() ==> inserts_newline(
                b,
                #[trigger] format_edits(b, bds, config)[k],
            ),
    decreases bds.len(),
{
    assert(file_boundary_edits(b, config) =~= Seq::<Span>::empty());
    if bds.len() > 0 {
        law_without_normalization_only_inserts(b, bds.drop_last(), config);
        law_boundary_without_normalization_only_inserts(b, bds.last(), config);
        let front = boundaries_edits(b, bds.drop_last(), config);
        let back = boundary_edits(b, bds.last(), config);
        assert(format_edits(b, bds.drop_last(), config) =~= front);
        assert(format_edits(b, bds, config) =~= front + back);
        assert forall|k: int| 0 <= k < format_edits(b, bds, config).len() implies inserts_newline(
            b,
            #[trigger] format_edits(b, bds, config)[k],
        ) by {
            if k < front.len() {
                assert(format_edits(b, bds, config)[k] == format_edits(b, bds.drop_last(), config)[k]);
            } else {
                assert(format_edits(b, bds, config)[k] == back[k - front.len()]);
            }
        }
    } else {
        assert(format_edits(b, bds, config) =~= Seq::<Span>::empty());
    }
}

/// Match arm spacing is opt-in: without it, no boundary between match arms
/// gets an edit.
pub proof fn law_match_arm_spacing_is_opt_in(b: Seq<u8>, bd: Boundary, config: Config)
    requires
        !config.rules.match_arm_spacing,
        bd.parent_kind == ContainerKind::MatchArms,
    ensures
        boundary_edits(b, bd, config) == Seq::<Span>::empty(),
{
    assert(required_lines(bd, config) == 0);
}

/// Match arm spacing separates only arms that span several lines: two
/// neighbouring arms that each fit on one line are never edited apart.
pub proof fn law_single_line_arms_stay_together(b: Seq<u8>, bd: Boundary, config: Config)
    requires
        boundary_wf(b, bd),
        bd.parent_kind == ContainerKind::MatchArms,
        newline_count(b, bd.previous.range.start as int, bd.previous.range.end as int) == 0,
        newline_count(b, bd.next.range.start as int, bd.next.range.end as int) == 0,
    ensures
        boundary_edits(b, bd, config) == Seq::<Span>::empty(),
{
}

/// Boundaries wholly inside skipped syntax, and statement boundaries next to
/// skipped syntax, are never edited.
pub proof fn law_skipped_syntax_untouched(b: Seq<u8>, bd: Boundary, config: Config)
    requires
        boundary_left_alone(bd),
    ensures
        boundary_edits(b, bd, config) == Seq::<Span>::empty(),
{
}

/// A boundary that no rule applies to is never edited, whatever its spacing.
pub proof fn law_unrequired_boundary_untouched(b: Seq<u8>, bd: Boundary, config: Config)
    requires
        required_lines(bd, config) == 0,
    ensures
        boundary_edits(b, bd, config) == Seq::<Span>::empty(),
{
}

// ---------------------------------------------------------------------------
// Formatting changes whitespace only
// ---------------------------------------------------------------------------
/// The bytes of `s` with its whitespace characters (see [`ws_width`]) left out.
pub open spec fn strip_ws(s: Seq<u8>) -> Seq<u8>
    decreases s.len(),
{
    if s.len() == 0 {
        Seq::empty()
    } else if ws_width(s, 0, s.len() as int) > 0 {
        strip_ws(s.subrange(ws_width(s, 0, s.len() as int), s.len() as int))
    } else {
        seq![s[0]] + strip_ws(s.subrange(1, s.len() as int))
    }
}

/// No multi-byte whitespace encoding that starts in `x` runs past its end.
pub open spec fn ws_closed(x: Seq<u8>) -> bool {
    forall|i: int|
        0 <= i < x.len() ==> (#[trigger] x[i] == 0xc2 ==> i + 2 <= x.len()) && ((x[i] == 0xe1
            || x[i] == 0xe2 || x[i] == 0xe3) ==> i + 3 <= x.len())
}

proof fn lemma_valid_ws_closed(x: Seq<u8>)
    requires
        valid_utf8(x),
    ensures
        ws_closed(x),
{
    assert forall|i: int| 0 <= i < x.len() implies (#[trigger] x[i] == 0xc2 ==> i + 2 <= x.len()) && (
    (x[i] == 0xe1 || x[i] == 0xe2 || x[i] == 0xe3) ==> i + 3 <= x.len()) by {
        if x[i] == 0xc2 || x[i] == 0xe1 || x[i] == 0xe2 || x[i] == 0xe3 {
            lemma_boundary_iff(x, i);
            lemma_scalar_step(x, i);
        }
    }
}

proof fn lemma_ws_width_prefix(x: Seq<u8>, y: Seq<u8>)
    requires
        ws_closed(x),
        x.len() > 0,
    ensures
        ws_width(x + y, 0, (x + y).len() as int) == ws_width(x, 0, x.len() as int),
        ws_width(x, 0, x.len() as int) <= x.len(),
{
    let z = x + y;
    assert(z[0] == x[0]);
    if x.len() >= 2 {
        assert(z[1] == x[1]);
    }
    if x.len() >= 3 {
        assert(z[2] == x[2]);
    }
}

/// Leaving out whitespace distributes over concatenation when no whitespace
/// character is split at the seam.
proof fn lemma_strip_concat(x: Seq<u8>, y: Seq<u8>)
    requires
        ws_closed(x),
    ensures
        strip_ws(x + y) == strip_ws(x) + strip_ws(y),
    decreases x.len(),
{
    if x.len() == 0 {
        assert(x + y =~= y);
        assert(Seq::<u8>::empty() + strip_ws(y) =~= strip_ws(y));
    } else {
        lemma_ws_width_prefix(x, y);
        let w = ws_width(x, 0, x.len() as int);
        let z = x + y;
        let step = if w > 0 {
            w
        } else {
            1
        };
        let xs = x.subrange(step, x.len() as int);
        assert(z.subrange(step, z.len() as int) =~= xs + y);
        assert(ws_closed(xs)) by {
            assert forall|i: int| 0 <= i < xs.len() implies (#[trigger] xs[i] == 0xc2 ==> i + 2
                <= xs.len()) && ((xs[i] == 0xe1 || xs[i] == 0xe2 || xs[i] == 0xe3) ==> i + 3
                <= xs.len()) by {
                assert(xs[i] == x[i + step]);
            }
        }
        lemma_strip_concat(xs, y);
        if w == 0 {
            assert(z[0] == x[0]);
            assert(seq![x[0]] + (strip_ws(xs) + strip_ws(y)) =~= seq![x[0]] + strip_ws(xs)
                + strip_ws(y));
        }
    }
}

/// Whitespace skipped from `a` holds nothing but whitespace.
proof fn lemma_strip_skipped(b: Seq<u8>, a: int, e: int)
    requires
        0 <= a <= e <= b.len(),
    ensures
        a <= skip_ws(b, a, e) <= e,
        strip_ws(b.subrange(a, skip_ws(b, a, e))) == Seq::<u8>::empty(),
    decreases e - a,
{
    if a < e && ws_width(b, a, e) > 0 {
        let w = ws_width(b, a, e);
        lemma_strip_skipped(b, a + w, e);
        let s = skip_ws(b, a, e);
        let piece = b.subrange(a, s);
        assert(piece[0] == b[a]);
        if w >= 2 {
            assert(piece[1] == b[a + 1]);
        }
        if w >= 3 {
            assert(piece[2] == b[a + 2]);
        }
        assert(ws_width(piece, 0, piece.len() as int) == w);
        assert(piece.subrange(w, piece.len() as int) =~= b.subrange(a + w, s));
    } else {
        assert(b.subrange(a, a) =~= Seq::<u8>::empty());
    }
}

/// A blank stretch holds nothing but whitespace.
proof fn lemma_strip_blank(b: Seq<u8>, a: int, e: int)
    requires
        0 <= a <= e <= b.len(),
        is_blank(b, a, e),
    ensures
        strip_ws(b.subrange(a, e)) == Seq::<u8>::empty(),
{
    lemma_strip_skipped(b, a, e);
}

/// ASCII whitespace bytes: tab, line feed, vertical tab, form feed, carriage return, space.
pub open spec fn all_ascii_ws(s: Seq<u8>) -> bool {
    forall|i: int|
        0 <= i < s.len() ==> #[trigger] s[i] == 9 || s[i] == 10 || s[i] == 11 || s[i] == 12 || s[i]
            == 13 || s[i] == 32
}

proof fn lemma_strip_ascii_ws(s: Seq<u8>)
    requires
        all_ascii_ws(s),
    ensures
        strip_ws(s) == Seq::<u8>::empty(),
    decreases s.len(),
{
    if s.len() > 0 {
        assert(s[0] == 9 || s[0] == 10 || s[0] == 11 || s[0] == 12 || s[0] == 13 || s[0] == 32);
        let rest = s.subrange(1, s.len() as int);
        assert(all_ascii_ws(rest)) by {
            assert forall|i: int| 0 <= i < rest.len() implies #[trigger] rest[i] == 9 || rest[i] == 10
                || rest[i] == 11 || rest[i] == 12 || rest[i] == 13 || rest[i] == 32 by {
                assert(rest[i] == s[i + 1]);
            }
        }
        lemma_strip_ascii_ws(rest);
    }
}


/// Concatenation keeps every multi-byte whitespace lead byte closed.
proof fn lemma_ws_closed_concat(x: Seq<u8>, y: Seq<u8>)
    requires
        ws_closed(x),
        ws_closed(y),
    ensures
        ws_closed(x + y),
{
    let z = x + y;
    assert forall|i: int| 0 <= i < z.len() implies (#[trigger] z[i] == 0xc2 ==> i + 2 <= z.len())
        && ((z[i] == 0xe1 || z[i] == 0xe2 || z[i] == 0xe3) ==> i + 3 <= z.len()) by {
        if i >= x.len() {
            assert(z[i] == y[i - x.len()]);
        } else {
            assert(z[i] == x[i]);
        }
    }
}

/// ASCII whitespace has no multi-byte lead bytes and nothing to keep.
proof fn lemma_ascii_ws_closed(s: Seq<u8>)
    requires
        all_ascii_ws(s),
    ensures
        ws_closed(s),
        strip_ws(s) == Seq::<u8>::empty(),
{
    lemma_strip_ascii_ws(s);
    assert forall|i: int| 0 <= i < s.len() implies (#[trigger] s[i] == 0xc2 ==> i + 2 <= s.len())
        && ((s[i] == 0xe1 || s[i] == 0xe2 || s[i] == 0xe3) ==> i + 3 <= s.len()) by {
        assert(s[i] == 9 || s[i] == 10 || s[i] == 11 || s[i] == 12 || s[i] == 13 || s[i] == 32);
    }
}

proof fn lemma_ascii_ws_concat(x: Seq<u8>, y: Seq<u8>)
    requires
        all_ascii_ws(x),
        all_ascii_ws(y),
    ensures
        all_ascii_ws(x + y),
{
    let z = x + y;
    assert forall|i: int| 0 <= i < z.len() implies #[trigger] z[i] == 9 || z[i] == 10 || z[i] == 11
        || z[i] == 12 || z[i] == 13 || z[i] == 32 by {
        if i >= x.len() {
            assert(z[i] == y[i - x.len()]);
        } else {
            assert(z[i] == x[i]);
        }
    }
}

proof fn lemma_newline_ascii_ws(b: Seq<u8>)
    ensures
        all_ascii_ws(newline_bytes(b)),
{
    let nl = newline_bytes(b);
    assert forall|i: int| 0 <= i < nl.len() implies #[trigger] nl[i] == 9 || nl[i] == 10 || nl[i]
        == 11 || nl[i] == 12 || nl[i] == 13 || nl[i] == 32 by {
        if has_crlf(b) {
            assert(nl == seq![13u8, 10u8]);
        } else {
            assert(nl == seq![10u8]);
        }
    }
}

proof fn lemma_repeat_ascii_ws(s: Seq<u8>, n: nat)
    requires
        all_ascii_ws(s),
    ensures
        all_ascii_ws(repeat_bytes(s, n)),
    decreases n,
{
    if n > 0 {
        lemma_repeat_ascii_ws(s, (n - 1) as nat);
        lemma_ascii_ws_concat(repeat_bytes(s, (n - 1) as nat), s);
    } else {
        assert(repeat_bytes(s, n) =~= Seq::<u8>::empty());
    }
}

/// The spaces and tabs of an indentation are ASCII whitespace.
proof fn lemma_indent_ascii_ws(b: Seq<u8>, a: int, e: int)
    requires
        0 <= a <= e <= b.len(),
    ensures
        a <= indent_end(b, a, e) <= e,
        all_ascii_ws(b.subrange(a, indent_end(b, a, e))),
    decreases e - a,
{
    let ie = indent_end(b, a, e);
    if a < e && (b[a] == 32 || b[a] == 9) {
        lemma_indent_ascii_ws(b, a + 1, e);
        let r = b.subrange(a, ie);
        assert(r =~= seq![b[a]] + b.subrange(a + 1, ie));
        lemma_ascii_ws_concat(seq![b[a]], b.subrange(a + 1, ie));
    } else {
        assert(b.subrange(a, a) =~= Seq::<u8>::empty());
    }
}

/// The bytes between two character boundaries of valid UTF-8 close every
/// whitespace character they start.
proof fn lemma_piece_closed(b: Seq<u8>, a: int, c: int)
    requires
        valid_utf8(b),
        0 <= a <= c <= b.len(),
        is_char_boundary(b, a),
        is_char_boundary(b, c),
    ensures
        ws_closed(b.subrange(a, c)),
{
    lemma_valid_subrange(b, a, c);
    lemma_valid_ws_closed(b.subrange(a, c));
}

/// An edit that keeps the non-whitespace text: it replaces a range of the
/// source by text with the same bytes once whitespace is left out.
pub open spec fn keeps_text(b: Seq<u8>, s: Span) -> bool {
    &&& 0 <= s.start <= s.end <= b.len()
    &&& ws_closed(s.text)
    &&& strip_ws(s.text) == strip_ws(b.subrange(s.start, s.end))
}

proof fn lemma_insert_newline_keeps(b: Seq<u8>, at: int)
    requires
        0 <= at <= b.len(),
    ensures
        keeps_text(b, Span { start: at, end: at, text: newline_bytes(b) }),
{
    lemma_newline_ascii_ws(b);
    lemma_ascii_ws_closed(newline_bytes(b));
    assert(b.subrange(at, at) =~= Seq::<u8>::empty());
}

proof fn lemma_boundary_fix_keeps(b: Seq<u8>, bd: Boundary, required: nat)
    requires
        bd.range.start <= bd.range.end <= b.len(),
        boundary_fix(b, bd, required) is Some,
    ensures
        keeps_text(b, boundary_fix(b, bd, required)->0),
{
    let start = region_start(b, bd);
    let end = skip_ws(b, start, bd.range.end as int);
    lemma_strip_skipped(b, start, bd.range.end as int);
    let is = line_start(b, end);
    crate::text::lemma_line_start_le(b, end);
    lemma_indent_ascii_ws(b, is, end);
    let nl = newline_bytes(b);
    lemma_newline_ascii_ws(b);
    lemma_repeat_ascii_ws(nl, required + 1);
    let text = repeat_bytes(nl, required + 1) + b.subrange(is, indent_end(b, is, end));
    lemma_ascii_ws_concat(repeat_bytes(nl, required + 1), b.subrange(is, indent_end(b, is, end)));
    lemma_ascii_ws_closed(text);
}

/// A blank line with its newline holds nothing but whitespace.
proof fn lemma_blank_line_piece(b: Seq<u8>, a: int, e: int)
    requires
        valid_utf8(b),
        0 <= a < e <= b.len(),
        is_char_boundary(b, a),
        next_nl(b, a, e) < e,
        is_blank(b, a, next_nl(b, a, e)),
    ensures
        ws_closed(b.subrange(a, next_nl(b, a, e) + 1)),
        strip_ws(b.subrange(a, next_nl(b, a, e) + 1)) == Seq::<u8>::empty(),
{
    lemma_next_nl_bounds(b, a, e);
    let nl = next_nl(b, a, e);
    lemma_boundary_iff(b, nl);
    lemma_boundary_after_ascii(b, nl + 1);
    lemma_piece_closed(b, a, nl + 1);
    lemma_piece_closed(b, a, nl);
    lemma_strip_blank(b, a, nl);
    let lf = seq![10u8];
    assert(all_ascii_ws(lf));
    lemma_ascii_ws_closed(lf);
    assert(b.subrange(a, nl + 1) =~= b.subrange(a, nl) + lf);
    lemma_strip_concat(b.subrange(a, nl), lf);
    assert(Seq::<u8>::empty() + Seq::<u8>::empty() =~= Seq::<u8>::empty());
}

/// Leaving out blank lines leaves out whitespace only.
proof fn lemma_without_blank_lines(b: Seq<u8>, a: int, e: int)
    requires
        valid_utf8(b),
        0 <= a <= e <= b.len(),
        is_char_boundary(b, a),
        is_char_boundary(b, e),
    ensures
        ws_closed(without_blank_lines(b, a, e)),
        strip_ws(without_blank_lines(b, a, e)) == strip_ws(b.subrange(a, e)),
    decreases e - a,
{
    if a >= e {
        assert(b.subrange(a, e) =~= Seq::<u8>::empty());
        assert(without_blank_lines(b, a, e) =~= Seq::<u8>::empty());
    } else {
        lemma_next_nl_bounds(b, a, e);
        let nl = next_nl(b, a, e);
        let pe = piece_end(b, a, e);
        if nl < e {
            lemma_boundary_after_ascii(b, nl + 1);
        }
        lemma_without_blank_lines(b, pe, e);
        let piece = b.subrange(a, pe);
        let rest = without_blank_lines(b, pe, e);
        lemma_piece_closed(b, a, pe);
        assert(b.subrange(a, e) =~= piece + b.subrange(pe, e));
        lemma_strip_concat(piece, b.subrange(pe, e));
        if nl < e && is_blank(b, a, nl) {
            lemma_blank_line_piece(b, a, e);
            assert(without_blank_lines(b, a, e) =~= Seq::<u8>::empty() + rest);
            assert(Seq::<u8>::empty() + strip_ws(b.subrange(pe, e)) =~= strip_ws(
                b.subrange(pe, e),
            ));
        } else {
            assert(without_blank_lines(b, a, e) =~= piece + rest);
            lemma_strip_concat(piece, rest);
            lemma_ws_closed_concat(piece, rest);
        }
    }
}

proof fn lemma_crlf_trim_bounds(b: Seq<u8>, a: int, e: int)
    requires
        a <= e,
    ensures
        a <= crate::rules::crlf_trim_end(b, a, e) <= e,
    decreases e - a,
{
    if e > a && (b[e - 1] == 13 || b[e - 1] == 10) {
        lemma_crlf_trim_bounds(b, a, e - 1);
    }
}

/// The edit that the scan of comment and attribute lines proposes keeps the text.
proof fn lemma_trivia_scan_keeps(b: Seq<u8>, ls: int, end: int, saw: bool, first_blank: Option<int>)
    requires
        valid_utf8(b),
        0 <= ls,
        end <= b.len(),
        ls < end ==> is_char_boundary(b, ls),
        first_blank matches Some(fb) ==> 0 <= fb <= ls && is_char_boundary(b, fb),
    ensures
        trivia_scan(b, ls, end, saw, first_blank) matches Some(sp) ==> keeps_text(b, sp),
    decreases end - ls,
{
    if ls < end {
        lemma_next_nl_bounds(b, ls, end);
        let le = next_nl(b, ls, end);
        let next = if le < end {
            le + 1
        } else {
            le
        };
        if le < end {
            lemma_boundary_after_ascii(b, le + 1);
        }
        let ce = crate::rules::crlf_trim_end(b, ls, next);
        lemma_crlf_trim_bounds(b, ls, next);
        let t = skip_ws(b, ls, ce);
        lemma_skip_ws_boundary(b, ls, ce);
        if is_blank(b, ls, ce) {
            let fb2 = if saw && first_blank is None {
                Some(ls)
            } else {
                first_blank
            };
            lemma_trivia_scan_keeps(b, next, end, saw, fb2);
        } else if crate::rules::starts_trivia(b, t, ce) {
            lemma_trivia_scan_keeps(b, next, end, true, first_blank);
        } else {
            match first_blank {
                None => {},
                Some(fb) => {
                    if crate::rules::has_blank_line(b, fb, t) {
                        lemma_without_blank_lines(b, fb, t);
                    }
                },
            }
        }
    }
}

proof fn lemma_comment_fix_keeps(b: Seq<u8>, start: int, end: int)
    requires
        valid_utf8(b),
        0 <= start,
        end <= b.len(),
        start < end ==> is_char_boundary(b, start),
    ensures
        comment_trivia_fix(b, start, end) matches Some(sp) ==> keeps_text(b, sp),
{
    lemma_trivia_scan_keeps(b, start, end, false, None);
}

/// Every edit of `s` keeps the text.
pub open spec fn all_keep(b: Seq<u8>, s: Seq<Span>) -> bool {
    forall|k: int| 0 <= k < s.len() ==> keeps_text(b, #[trigger] s[k])
}

proof fn lemma_all_keep_concat(b: Seq<u8>, x: Seq<Span>, y: Seq<Span>)
    requires
        all_keep(b, x),
        all_keep(b, y),
    ensures
        all_keep(b, x + y),
{
    assert forall|k: int| 0 <= k < (x + y).len() implies keeps_text(b, #[trigger] (x + y)[k]) by {
        if k < x.len() {
            assert((x + y)[k] == x[k]);
        } else {
            assert((x + y)[k] == y[k - x.len()]);
        }
    }
}

proof fn lemma_opt_keeps(b: Seq<u8>, o: Option<Span>)
    requires
        o matches Some(sp) ==> keeps_text(b, sp),
    ensures
        all_keep(b, opt_seq(o)),
{
}

/// Every edit of a well-formed boundary keeps the text.
proof fn lemma_boundary_edits_keep(b: Seq<u8>, bd: Boundary, config: Config)
    requires
        valid_utf8(b),
        boundary_wf(b, bd),
    ensures
        all_keep(b, boundary_edits(b, bd, config)),
{
    let required = required_lines(bd, config);
    let existing = crate::rules::blank_lines(b, bd.range.start as int, bd.range.end as int);
    let normalize = config.rules.normalize_blank_lines;
    if !(boundary_left_alone(bd) || required == 0 || (existing > required && !normalize)) {
        let first = if existing > required {
            opt_seq(boundary_fix(b, bd, required))
        } else {
            Seq::empty()
        };
        let ls = line_start(b, bd.next.leading_range.start as int);
        let second = if normalize {
            opt_seq(comment_trivia_fix(b, ls, bd.next.range.end as int))
        } else {
            Seq::empty()
        };
        let third = if existing >= required {
            Seq::<Span>::empty()
        } else {
            seq![
                Span {
                    start: bd.insertion_offset as int,
                    end: bd.insertion_offset as int,
                    text: newline_bytes(b),
                },
            ]
        };
        if boundary_fix(b, bd, required) is Some {
            lemma_boundary_fix_keeps(b, bd, required);
        }
        lemma_opt_keeps(b, boundary_fix(b, bd, required));
        assert(all_keep(b, first));
        lemma_line_start_boundary(b, bd.next.leading_range.start as int);
        lemma_comment_fix_keeps(b, ls, bd.next.range.end as int);
        lemma_opt_keeps(b, comment_trivia_fix(b, ls, bd.next.range.end as int));
        lemma_insert_newline_keeps(b, bd.insertion_offset as int);
        assert(all_keep(b, third));
        lemma_all_keep_concat(b, first, second);
        lemma_all_keep_concat(b, first + second, third);
        assert(boundary_edits(b, bd, config) =~= first + second + third);
    }
}

/// Every edit of well-formed boundaries keeps the text.
proof fn lemma_boundaries_edits_keep(b: Seq<u8>, bds: Seq<Boundary>, config: Config)
    requires
        valid_utf8(b),
        all_wf(b, bds),
    ensures
        all_keep(b, boundaries_edits(b, bds, config)),
    decreases bds.len(),
{
    if bds.len() > 0 {
        assert(all_wf(b, bds.drop_last())) by {
            assert forall|k: int| 0 <= k < bds.drop_last().len() implies boundary_wf(
                b,
                #[trigger] bds.drop_last()[k],
            ) by {
                assert(bds.drop_last()[k] == bds[k]);
            }
        }
        assert(boundary_wf(b, bds[bds.len() - 1]));
        lemma_boundaries_edits_keep(b, bds.drop_last(), config);
        lemma_boundary_edits_keep(b, bds.last(), config);
        lemma_all_keep_concat(
            b,
            boundaries_edits(b, bds.drop_last(), config),
            boundary_edits(b, bds.last(), config),
        );
    }
}

/// The blank pieces before the first content hold whitespace only.
proof fn lemma_first_content_ws(b: Seq<u8>, a: int)
    requires
        valid_utf8(b),
        0 <= a <= b.len(),
        is_char_boundary(b, a),
    ensures
        a <= first_content(b, a) <= b.len(),
        ws_closed(b.subrange(a, first_content(b, a))),
        strip_ws(b.subrange(a, first_content(b, a))) == Seq::<u8>::empty(),
    decreases b.len() - a,
{
    let n = b.len() as int;
    if a < n {
        lemma_next_nl_bounds(b, a, n);
        let pe = piece_end(b, a, n);
        if is_blank(b, a, pe) {
            if next_nl(b, a, n) < n {
                lemma_boundary_after_ascii(b, pe);
            } else {
                lemma_boundary_iff(b, n);
            }
            lemma_first_content_ws(b, pe);
            let fc = first_content(b, a);
            lemma_piece_closed(b, a, pe);
            lemma_strip_blank(b, a, pe);
            assert(b.subrange(a, fc) =~= b.subrange(a, pe) + b.subrange(pe, fc));
            lemma_strip_concat(b.subrange(a, pe), b.subrange(pe, fc));
            lemma_ws_closed_concat(b.subrange(a, pe), b.subrange(pe, fc));
            assert(Seq::<u8>::empty() + Seq::<u8>::empty() =~= Seq::<u8>::empty());
        } else {
            assert(b.subrange(a, a) =~= Seq::<u8>::empty());
        }
    } else {
        assert(b.subrange(a, a) =~= Seq::<u8>::empty());
    }
}

/// The line endings that trimming takes off are ASCII whitespace.
proof fn lemma_crlf_tail_ascii_ws(b: Seq<u8>, a: int, e: int)
    requires
        0 <= a <= e <= b.len(),
    ensures
        all_ascii_ws(b.subrange(crate::rules::crlf_trim_end(b, a, e), e)),
    decreases e - a,
{
    let t = crate::rules::crlf_trim_end(b, a, e);
    if e > a && (b[e - 1] == 13 || b[e - 1] == 10) {
        lemma_crlf_tail_ascii_ws(b, a, e - 1);
        lemma_crlf_trim_bounds(b, a, e - 1);
        assert(b.subrange(t, e) =~= b.subrange(t, e - 1) + seq![b[e - 1]]);
        lemma_ascii_ws_concat(b.subrange(t, e - 1), seq![b[e - 1]]);
    } else {
        assert(b.subrange(e, e) =~= Seq::<u8>::empty());
    }
}

/// After the end of the last content there is whitespace only.
proof fn lemma_last_content_ws(b: Seq<u8>, a: int, acc: int)
    requires
        valid_utf8(b),
        0 <= acc <= a <= b.len(),
        is_char_boundary(b, a),
        ws_closed(b.subrange(acc, a)),
        strip_ws(b.subrange(acc, a)) == Seq::<u8>::empty(),
    ensures
        0 <= last_content_end(b, a, acc) <= b.len(),
        strip_ws(b.subrange(last_content_end(b, a, acc), b.len() as int)) == Seq::<u8>::empty(),
    decreases b.len() - a,
{
    let n = b.len() as int;
    if a < n {
        lemma_next_nl_bounds(b, a, n);
        let pe = piece_end(b, a, n);
        if next_nl(b, a, n) < n {
            lemma_boundary_after_ascii(b, pe);
        } else {
            lemma_boundary_iff(b, n);
        }
        lemma_piece_closed(b, a, pe);
        if !is_blank(b, a, pe) {
            let t = crate::rules::crlf_trim_end(b, a, pe);
            lemma_crlf_trim_bounds(b, a, pe);
            lemma_crlf_tail_ascii_ws(b, a, pe);
            lemma_ascii_ws_closed(b.subrange(t, pe));
            lemma_last_content_ws(b, pe, t);
        } else {
            lemma_strip_blank(b, a, pe);
            assert(b.subrange(acc, pe) =~= b.subrange(acc, a) + b.subrange(a, pe));
            lemma_strip_concat(b.subrange(acc, a), b.subrange(a, pe));
            lemma_ws_closed_concat(b.subrange(acc, a), b.subrange(a, pe));
            assert(Seq::<u8>::empty() + Seq::<u8>::empty() =~= Seq::<u8>::empty());
            lemma_last_content_ws(b, pe, acc);
        }
    }
}

/// Every edit at the ends of the file keeps the text.
proof fn lemma_file_boundary_edits_keep(b: Seq<u8>, config: Config)
    requires
        valid_utf8(b),
    ensures
        all_keep(b, file_boundary_edits(b, config)),
{
    if !(!config.rules.normalize_blank_lines || is_blank(b, 0, b.len() as int)) {
        let n = b.len() as int;
        lemma_boundary_iff(b, 0);
        if n == 0 {
            is_char_boundary_start_end_of_seq(b);
        }
        lemma_first_content_ws(b, 0);
        let first = first_content(b, 0);
        crate::rules::lemma_first_content_boundary(b, 0);
        assert(b.subrange(0, 0) =~= Seq::<u8>::empty());
        lemma_last_content_ws(b, 0, 0);
        let last = last_content_end(b, 0, 0);
        let s1 = if first > 0 {
            seq![Span { start: 0, end: first, text: Seq::empty() }]
        } else {
            Seq::empty()
        };
        let s2 = opt_seq(comment_trivia_fix(b, first, n));
        let s3 = if b.subrange(last, n) != newline_bytes(b) {
            seq![Span { start: last, end: n, text: newline_bytes(b) }]
        } else {
            Seq::empty()
        };
        assert(strip_ws(Seq::<u8>::empty()) == Seq::<u8>::empty());
        assert(ws_closed(Seq::<u8>::empty()));
        assert(all_keep(b, s1));
        lemma_comment_fix_keeps(b, first, n);
        lemma_opt_keeps(b, comment_trivia_fix(b, first, n));
        lemma_newline_ascii_ws(b);
        lemma_ascii_ws_closed(newline_bytes(b));
        assert(all_keep(b, s3));
        lemma_all_keep_concat(b, s1, s2);
        lemma_all_keep_concat(b, s1 + s2, s3);
        assert(file_boundary_edits(b, config) =~= s1 + s2 + s3);
    }
}

proof fn lemma_insert_pos_bounds(s: Seq<Span>, x: Span)
    ensures
        0 <= insert_pos(s, x) <= s.len(),
    decreases s.len(),
{
    if s.len() > 0 && !span_le(s.last(), x) {
        lemma_insert_pos_bounds(s.drop_last(), x);
    }
}

/// Ordering the edits keeps each of them.
proof fn lemma_sort_keeps(b: Seq<u8>, s: Seq<Span>)
    requires
        all_keep(b, s),
    ensures
        sort_spans(s).len() == s.len(),
        all_keep(b, sort_spans(s)),
    decreases s.len(),
{
    if s.len() > 0 {
        let front = s.drop_last();
        assert(all_keep(b, front)) by {
            assert forall|k: int| 0 <= k < front.len() implies keeps_text(b, #[trigger] front[k]) by {
                assert(front[k] == s[k]);
            }
        }
        lemma_sort_keeps(b, front);
        let r = sort_spans(front);
        let x = s.last();
        assert(keeps_text(b, s[s.len() - 1]));
        let p = insert_pos(r, x);
        lemma_insert_pos_bounds(r, x);
        r.insert_ensures(p, x);
        let t = r.insert(p, x);
        assert forall|k: int| 0 <= k < t.len() implies keeps_text(b, #[trigger] t[k]) by {
            if k < p {
                assert(t[k] == r[k]);
            } else if k == p {
                assert(t[k] == x);
            } else {
                assert(t[(k - 1) + 1] == r[k - 1]);
            }
        }
    }
}

/// Putting edits that keep the text in place, in order and without overlap,
/// keeps the text from `pos` on.
proof fn lemma_strip_splice(b: Seq<u8>, s: Seq<Span>, i: int, pos: int)
    requires
        valid_utf8(b),
        0 <= i <= s.len(),
        0 <= pos <= b.len(),
        is_char_boundary(b, pos),
        all_keep(b, s),
        fault_from(b, s, i, pos) is None,
        i < s.len() ==> pos <= s[i].start,
    ensures
        strip_ws(splice(b, s, i, pos)) == strip_ws(b.subrange(pos, b.len() as int)),
    decreases s.len() - i,
{
    let n = b.len() as int;
    if i < s.len() {
        let e = s[i];
        assert(keeps_text(b, s[i]));
        lemma_strip_splice(b, s, i + 1, e.end);
        let rest = splice(b, s, i + 1, e.end);
        let head = b.subrange(pos, e.start);
        let mid = b.subrange(e.start, e.end);
        let tail = b.subrange(e.end, n);
        lemma_piece_closed(b, pos, e.start);
        lemma_piece_closed(b, e.start, e.end);
        assert(splice(b, s, i, pos) =~= head + (e.text + rest));
        lemma_strip_concat(head, e.text + rest);
        lemma_strip_concat(e.text, rest);
        assert(b.subrange(pos, n) =~= head + (mid + tail));
        lemma_strip_concat(head, mid + tail);
        lemma_strip_concat(mid, tail);
    }
}

/// Formatting changes whitespace only: whatever boundaries the parser reports,
/// once the edits that formatting derives from them apply without fault, the
/// result holds the same non-whitespace bytes, in the same order, as the source.
pub proof fn law_formatting_changes_only_whitespace(
    b: Seq<u8>,
    bds: Seq<Boundary>,
    config: Config,
    edits: Seq<Edit>,
)
    requires
        valid_utf8(b),
        all_wf(b, bds),
        edit_spans(edits) == format_edits(b, bds, config),
        edits_fault(b, edits) is None,
    ensures
        strip_ws(applied(b, edits)) == strip_ws(b),
{
    lemma_boundaries_edits_keep(b, bds, config);
    lemma_file_boundary_edits_keep(b, config);
    lemma_all_keep_concat(b, boundaries_edits(b, bds, config), file_boundary_edits(b, config));
    assert(spans(edits) =~= edit_spans(edits));
    lemma_sort_keeps(b, spans(edits));
    let sorted = sort_spans(spans(edits));
    lemma_boundary_iff(b, 0);
    if b.len() == 0 {
        is_char_boundary_start_end_of_seq(b);
    }
    if sorted.len() > 0 {
        assert(keeps_text(b, sorted[0]));
    }
    lemma_strip_splice(b, sorted, 0, 0);
    assert(b.subrange(0, b.len() as int) =~= b);
}

// ---------------------------------------------------------------------------
// The order in which edits are given does not matter
// ---------------------------------------------------------------------------
/// Each span is no greater than any later one.
pub open spec fn sorted_spans(r: Seq<Span>) -> bool {
    forall|i: int, j: int| 0 <= i < j < r.len() ==> span_le(#[trigger] r[i], #[trigger] r[j])
}

/// Two spans replace the same range.
pub open spec fn same_range(a: Span, b: Span) -> bool {
    a.start == b.start && a.end == b.end
}

/// No two of the spans replace the same range.
pub open spec fn distinct_ranges(s: Seq<Span>) -> bool {
    forall|i: int, j: int| 0 <= i < j < s.len() ==> !same_range(#[trigger] s[i], #[trigger] s[j])
}

/// Spans of the multiset that replace the same range are the same span.
pub open spec fn ranges_unique(m: Multiset<Span>) -> bool {
    forall|x: Span, y: Span|
        #![trigger m.count(x), m.count(y)]
        m.count(x) > 0 && m.count(y) > 0 && same_range(x, y) ==> x == y
}

proof fn lemma_insert_pos_sorted(r: Seq<Span>, x: Span)
    requires
        sorted_spans(r),
    ensures
        0 <= insert_pos(r, x) <= r.len(),
        forall|k: int| 0 <= k < insert_pos(r, x) ==> span_le(#[trigger] r[k], x),
        forall|k: int| insert_pos(r, x) <= k < r.len() ==> span_le(x, #[trigger] r[k]) && !span_le(r[k], x),
    decreases r.len(),
{
    if r.len() > 0 {
        if span_le(r.last(), x) {
            assert forall|k: int| 0 <= k < r.len() implies span_le(#[trigger] r[k], x) by {
                if k < r.len() - 1 {
                    assert(span_le(r[k], r[r.len() - 1]));
                }
            }
        } else {
            let d = r.drop_last();
            assert(sorted_spans(d)) by {
                assert forall|i: int, j: int| 0 <= i < j < d.len() implies span_le(#[trigger] d[i], #[trigger] d[j]) by {
                    assert(d[i] == r[i] && d[j] == r[j]);
                }
            }
            lemma_insert_pos_sorted(d, x);
            assert forall|k: int| 0 <= k < insert_pos(r, x) implies span_le(#[trigger] r[k], x) by {
                assert(r[k] == d[k]);
            }
            assert forall|k: int| insert_pos(r, x) <= k < r.len() implies span_le(x, #[trigger] r[k])
                && !span_le(r[k], x) by {
                if k < r.len() - 1 {
                    assert(r[k] == d[k]);
                }
            }
        }
    }
}

/// Ordering spans gives an ordered sequence of the same spans.
proof fn lemma_sort_spans(s: Seq<Span>)
    ensures
        sort_spans(s).len() == s.len(),
        sorted_spans(sort_spans(s)),
        sort_spans(s).to_multiset() == s.to_multiset(),
    decreases s.len(),
{
    broadcast use vstd::seq_lib::group_to_multiset_ensures;

    if s.len() == 0 {
        assert(sort_spans(s) =~= s);
    } else {
        let d = s.drop_last();
        let x = s.last();
        lemma_sort_spans(d);
        let r = sort_spans(d);
        lemma_insert_pos_sorted(r, x);
        let p = insert_pos(r, x);
        r.insert_ensures(p, x);
        let t = r.insert(p, x);
        assert(t == sort_spans(s));
        assert forall|i: int, j: int| 0 <= i < j < t.len() implies span_le(#[trigger] t[i], #[trigger] t[j]) by {
            if j < p {
                assert(t[i] == r[i] && t[j] == r[j]);
            } else if j == p {
                assert(t[i] == r[i]);
            } else if i == p {
                assert(t[j] == r[j - 1]);
            } else if i < p {
                assert(t[i] == r[i] && t[j] == r[j - 1]);
                assert(span_le(r[i], x));
                assert(span_le(x, r[j - 1]));
            } else {
                assert(t[i] == r[i - 1] && t[j] == r[j - 1]);
            }
        }
        assert(t.remove(p) =~= r);
        assert(t.contains(x)) by {
            assert(t[p] == x);
        }
        assert(s =~= d.push(x));
        assert(t.to_multiset() =~= r.to_multiset().insert(x)) by {
            assert(t.remove(p).to_multiset() == t.to_multiset().remove(t[p]));
        }
    }
}

/// Ordered sequences of the same spans, where equal ranges mean equal spans,
/// are equal.
proof fn lemma_sorted_unique(r1: Seq<Span>, r2: Seq<Span>)
    requires
        sorted_spans(r1),
        sorted_spans(r2),
        r1.to_multiset() == r2.to_multiset(),
        ranges_unique(r1.to_multiset()),
    ensures
        r1 == r2,
    decreases r1.len(),
{
    broadcast use vstd::seq_lib::group_to_multiset_ensures;

    assert(r1.to_multiset().len() == r1.len());
    assert(r2.to_multiset().len() == r2.len());
    assert(r1.len() == r2.len());
    if r1.len() > 0 {
        let x = r1[0];
        let y = r2[0];
        assert(r1.contains(x));
        assert(r2.contains(y));
        assert(r1.to_multiset().count(x) > 0);
        assert(r2.to_multiset().count(y) > 0);
        assert(r2.to_multiset().count(x) > 0);
        assert(r1.to_multiset().count(y) > 0);
        assert(r2.contains(x));
        assert(r1.contains(y));
        let k2 = choose|k: int| 0 <= k < r2.len() && r2[k] == x;
        let k1 = choose|k: int| 0 <= k < r1.len() && r1[k] == y;
        if k2 > 0 {
            assert(span_le(r2[0], r2[k2]));
        }
        if k1 > 0 {
            assert(span_le(r1[0], r1[k1]));
        }
        assert(same_range(x, y));
        assert(r1.to_multiset().count(x) > 0 && r1.to_multiset().count(y) > 0);
        assert(x == y);
        let d1 = r1.remove(0);
        let d2 = r2.remove(0);
        assert(d1.to_multiset() == r1.to_multiset().remove(x));
        assert(d2.to_multiset() == r2.to_multiset().remove(y));
        assert(sorted_spans(d1)) by {
            assert forall|i: int, j: int| 0 <= i < j < d1.len() implies span_le(#[trigger] d1[i], #[trigger] d1[j]) by {
                assert(d1[i] == r1[i + 1] && d1[j] == r1[j + 1]);
            }
        }
        assert(sorted_spans(d2)) by {
            assert forall|i: int, j: int| 0 <= i < j < d2.len() implies span_le(#[trigger] d2[i], #[trigger] d2[j]) by {
                assert(d2[i] == r2[i + 1] && d2[j] == r2[j + 1]);
            }
        }
        let m = d1.to_multiset();
        assert(ranges_unique(m)) by {
            assert forall|a: Span, c: Span|
                #![trigger m.count(a), m.count(c)]
                m.count(a) > 0 && m.count(c) > 0 && same_range(a, c) implies a == c by {
                assert(r1.to_multiset().count(a) > 0 && r1.to_multiset().count(c) > 0);
            }
        }
        lemma_sorted_unique(d1, d2);
        assert(r1 =~= seq![x] + d1);
        assert(r2 =~= seq![y] + d2);
    } else {
        assert(r1 =~= r2);
    }
}

proof fn lemma_distinct_ranges_unique(s: Seq<Span>)
    requires
        distinct_ranges(s),
    ensures
        ranges_unique(s.to_multiset()),
{
    broadcast use vstd::seq_lib::group_to_multiset_ensures;

    let m = s.to_multiset();
    assert forall|x: Span, y: Span|
        #![trigger m.count(x), m.count(y)]
        m.count(x) > 0 && m.count(y) > 0 && same_range(x, y) implies x == y by {
        assert(s.contains(x) && s.contains(y));
        let i = choose|i: int| 0 <= i < s.len() && s[i] == x;
        let j = choose|j: int| 0 <= j < s.len() && s[j] == y;
        if i < j {
            assert(!same_range(s[i], s[j]));
        } else if j < i {
            assert(!same_range(s[j], s[i]));
        }
    }
}

/// The order of the edit list does not matter: edits that hold the same
/// ranges and replacements, each as often, where no two replace the same
/// range, fail alike and give the same text.
pub proof fn law_edit_order_irrelevant(b: Seq<u8>, edits: Seq<Edit>, perm: Seq<Edit>)
    requires
        spans(perm).to_multiset() == spans(edits).to_multiset(),
        distinct_ranges(spans(edits)),
    ensures
        edits_fault(b, perm) == edits_fault(b, edits),
        applied(b, perm) == applied(b, edits),
{
    lemma_sort_spans(spans(perm));
    lemma_sort_spans(spans(edits));
    lemma_distinct_ranges_unique(spans(edits));
    lemma_sorted_unique(sort_spans(spans(perm)), sort_spans(spans(edits)));
}

// ---------------------------------------------------------------------------
// Blank lines after statements
// ---------------------------------------------------------------------------
/// A `let` statement, or a statement that is a block expression, that fits on
/// one line needs no blank line after it: the boundary that follows it in a
/// block is never edited, whatever the options and whatever whitespace the
/// boundary holds.
pub proof fn law_single_line_statement_needs_no_blank_line(b: Seq<u8>, bd: Boundary, config: Config)
    requires
        boundary_wf(b, bd),
        bd.parent_kind == ContainerKind::Statements,
        bd.previous.kind == NodeKind::LetStatement || bd.previous.kind
            == NodeKind::BlockExpressionStatement,
        newline_count(b, bd.previous.range.start as int, bd.previous.range.end as int) == 0,
    ensures
        required_lines(bd, config) == 0,
        boundary_edits(b, bd, config) == Seq::<Span>::empty(),
{
}

/// A `let` statement, or a statement that is a block expression, that spans
/// several lines is followed by a blank line: where the boundary after it in a
/// block holds none, and is not next to skipped syntax, its last edit inserts
/// a line ending where the next statement's leading trivia begins.
pub proof fn law_multiline_statement_gets_blank_line(b: Seq<u8>, bd: Boundary, config: Config)
    requires
        boundary_wf(b, bd),
        bd.parent_kind == ContainerKind::Statements,
        bd.previous.kind == NodeKind::LetStatement || bd.previous.kind
            == NodeKind::BlockExpressionStatement,
        newline_count(b, bd.previous.range.start as int, bd.previous.range.end as int) > 0,
        !boundary_left_alone(bd),
        crate::rules::blank_lines(b, bd.range.start as int, bd.range.end as int) == 0,
    ensures
        required_lines(bd, config) == 1,
        boundary_edits(b, bd, config).len() > 0,
        boundary_edits(b, bd, config).last() == (Span {
            start: bd.insertion_offset as int,
            end: bd.insertion_offset as int,
            text: newline_bytes(b),
        }),
{
    let ins = Span {
        start: bd.insertion_offset as int,
        end: bd.insertion_offset as int,
        text: newline_bytes(b),
    };
    let mid = if config.rules.normalize_blank_lines {
        opt_seq(
            comment_trivia_fix(
                b,
                line_start(b, bd.next.leading_range.start as int),
                bd.next.range.end as int,
            ),
        )
    } else {
        Seq::<Span>::empty()
    };
    assert(boundary_edits(b, bd, config) =~= Seq::<Span>::empty() + mid + seq![ins]);
}

// ---------------------------------------------------------------------------
// Blank lines at the start of a file
// ---------------------------------------------------------------------------
/// Whitespace that fills `b[a..m]` is passed over on the way to `e`.
proof fn lemma_skip_ws_through(b: Seq<u8>, a: int, m: int, e: int)
    requires
        0 <= a <= m <= e <= b.len(),
        skip_ws(b, a, m) >= m,
    ensures
        skip_ws(b, a, e) == skip_ws(b, m, e),
    decreases m - a,
{
    if a < m {
        let w = ws_width(b, a, m);
        assert(w > 0);
        assert(ws_width(b, a, e) == w);
        assert(a + w <= m);
        lemma_skip_ws_through(b, a + w, m, e);
    }
}

/// Where the first piece of `b[a..]` that is not blank begins: at a piece that
/// is not blank, or at the end, and before the end unless `b[a..]` is blank.
proof fn lemma_first_content_found(b: Seq<u8>, a: int)
    requires
        0 <= a <= b.len(),
    ensures
        a <= first_content(b, a) <= b.len(),
        first_content(b, a) < b.len() ==> !is_blank(
            b,
            first_content(b, a),
            piece_end(b, first_content(b, a), b.len() as int),
        ),
        !is_blank(b, a, b.len() as int) ==> first_content(b, a) < b.len(),
    decreases b.len() - a,
{
    let n = b.len() as int;
    if a < n {
        lemma_next_nl_bounds(b, a, n);
        let pe = piece_end(b, a, n);
        if is_blank(b, a, pe) {
            lemma_first_content_found(b, pe);
            lemma_skip_ws_through(b, a, pe, n);
        }
    }
}

/// With blank-line normalization on, a file that is not all blank loses the
/// blank lines it starts with: the content starts at a line that is not
/// blank, everything before it is whitespace, and when there is anything
/// before it, the first edit at the ends of the file deletes all of it.
pub proof fn law_leading_blank_lines_removed(b: Seq<u8>, config: Config)
    requires
        valid_utf8(b),
        config.rules.normalize_blank_lines,
        !is_blank(b, 0, b.len() as int),
    ensures
        0 <= first_content(b, 0) < b.len(),
        !is_blank(b, first_content(b, 0), piece_end(b, first_content(b, 0), b.len() as int)),
        strip_ws(b.subrange(0, first_content(b, 0))) == Seq::<u8>::empty(),
        first_content(b, 0) > 0 ==> file_boundary_edits(b, config).len() > 0
            && file_boundary_edits(b, config)[0] == (Span {
            start: 0,
            end: first_content(b, 0),
            text: Seq::<u8>::empty(),
        }),
{
    lemma_first_content_found(b, 0);
    lemma_boundary_iff(b, 0);
    lemma_first_content_ws(b, 0);
    let n = b.len() as int;
    let first = first_content(b, 0);
    let last = last_content_end(b, 0, 0);
    if first > 0 {
        let s1 = seq![Span { start: 0, end: first, text: Seq::<u8>::empty() }];
        let s2 = opt_seq(comment_trivia_fix(b, first, n));
        let s3 = if b.subrange(last, n) != newline_bytes(b) {
            seq![Span { start: last, end: n, text: newline_bytes(b) }]
        } else {
            Seq::<Span>::empty()
        };
        assert(file_boundary_edits(b, config) =~= s1 + s2 + s3);
        assert((s1 + s2 + s3)[0] == s1[0]);
    }
}

/// With blank-line normalization on, a file that is not all blank ends with
/// exactly one line ending after its last content: what follows that content
/// is whitespace only, and unless it is already the file's line ending, the
/// last edit at the ends of the file replaces it with that line ending.
pub proof fn law_file_ends_with_one_line_ending(b: Seq<u8>, config: Config)
    requires
        valid_utf8(b),
        config.rules.normalize_blank_lines,
        !is_blank(b, 0, b.len() as int),
    ensures
        0 <= last_content_end(b, 0, 0) <= b.len(),
        strip_ws(b.subrange(last_content_end(b, 0, 0), b.len() as int)) == Seq::<u8>::empty(),
        b.subrange(last_content_end(b, 0, 0), b.len() as int) != newline_bytes(b)
            ==> file_boundary_edits(b, config).len() > 0 && file_boundary_edits(b, config).last()
            == (Span {
            start: last_content_end(b, 0, 0),
            end: b.len() as int,
            text: newline_bytes(b),
        }),
{
    let n = b.len() as int;
    lemma_boundary_iff(b, 0);
    if n == 0 {
        is_char_boundary_start_end_of_seq(b);
    }
    assert(b.subrange(0, 0) =~= Seq::<u8>::empty());
    assert(strip_ws(Seq::<u8>::empty()) == Seq::<u8>::empty());
    assert(ws_closed(Seq::<u8>::empty()));
    lemma_last_content_ws(b, 0, 0);
    let first = first_content(b, 0);
    let last = last_content_end(b, 0, 0);
    let s1 = if first > 0 {
        seq![Span { start: 0, end: first, text: Seq::<u8>::empty() }]
    } else {
        Seq::<Span>::empty()
    };
    let s2 = opt_seq(comment_trivia_fix(b, first, n));
    if b.subrange(last, n) != newline_bytes(b) {
        let s3 = seq![Span { start: last, end: n, text: newline_bytes(b) }];
        assert(file_boundary_edits(b, config) =~= s1 + s2 + s3);
    }
}

} // verus!
