//! Text edits over byte ranges and their application to a source text.
use std::ops::Range;
use vstd::prelude::*;
use vstd::string::*;
use vstd::utf8::*;

use crate::errors::EditError;
use crate::text::{decimal, lemma_valid_subrange, push_all, push_decimal, push_range, string_from_valid};

verus! {

broadcast use vstd::utf8::group_utf8_lib;

/// Replacement of the bytes in `range` of a source text by `replacement`.
#[derive(Debug, PartialEq, Eq)]
pub struct Edit {
    pub range: Range<usize>,
    pub replacement: String,
}

/// An edit as the specifications see it: the replaced byte range and the
/// bytes that take its place.
pub struct Span {
    pub start: int,
    pub end: int,
    pub text: Seq<u8>,
}

impl Edit {
    pub open spec fn span(self) -> Span {
        Span {
            start: self.range.start as int,
            end: self.range.end as int,
            text: encode_utf8(self.replacement@),
        }
    }

    /// An edit that inserts `text` at `offset`.
    pub fn insert(offset: usize, text: &str) -> (e: Edit)
        ensures
            e.range.start == offset,
            e.range.end == offset,
            e.replacement@ == text@,
    {
        Edit { range: Range { start: offset, end: offset }, replacement: text.to_owned() }
    }

    /// An edit that replaces the bytes of `range` with `text`.
    pub fn replace(range: Range<usize>, text: &str) -> (e: Edit)
        ensures
            e.range == range,
            e.replacement@ == text@,
    {
        Edit { range, replacement: text.to_owned() }
    }
}

/// The spans of a sequence of edits.
pub open spec fn spans(edits: Seq<Edit>) -> Seq<Span> {
    edits.map_values(|e: Edit| e.span())
}

/// Edits are ordered by start, then by end.
pub open spec fn span_le(a: Span, b: Span) -> bool {
    a.start < b.start || (a.start == b.start && a.end <= b.end)
}

/// Where `x` goes in the ordered `s`: after every span that is not greater.
pub open spec fn insert_pos(s: Seq<Span>, x: Span) -> int
    decreases s.len(),
{
    if s.len() == 0 {
        0
    } else if span_le(s.last(), x) {
        s.len() as int
    } else {
        insert_pos(s.drop_last(), x)
    }
}

/// The spans ordered by (start, end); spans with equal keys keep their order.
pub open spec fn sort_spans(s: Seq<Span>) -> Seq<Span>
    decreases s.len(),
{
    if s.len() == 0 {
        s
    } else {
        let r = sort_spans(s.drop_last());
        r.insert(insert_pos(r, s.last()), s.last())
    }
}

/// Why a sequence of edits cannot be applied.
pub enum EditFault {
    /// The range is reversed or reaches past the end of the source.
    OutOfBounds(nat, nat),
    /// The range starts or ends inside a character's encoding.
    NotOnCharBoundary,
    /// The range starts before the previous range ends.
    Overlap,
}

/// The first fault among the spans `s[i..]`, checked in order, where the span
/// before `s[i]` ends at `prev_end`.
pub open spec fn fault_from(b: Seq<u8>, s: Seq<Span>, i: int, prev_end: int) -> Option<EditFault>
    decreases s.len() - i,
{
    if i < 0 || i >= s.len() {
        None
    } else {
        let e = s[i];
        if e.start > e.end || e.end > b.len() {
            Some(EditFault::OutOfBounds(e.start as nat, e.end as nat))
        } else if !is_char_boundary(b, e.start) || !is_char_boundary(b, e.end) {
            Some(EditFault::NotOnCharBoundary)
        } else if i > 0 && e.start < prev_end {
            Some(EditFault::Overlap)
        } else {
            fault_from(b, s, i + 1, e.end)
        }
    }
}

/// The message that reports a fault.
pub open spec fn fault_message(f: EditFault) -> Seq<char> {
    match f {
        EditFault::OutOfBounds(start, end) => "edit range is outside source bounds: "@ + decimal(
            start,
        ) + ".."@ + decimal(end),
        EditFault::NotOnCharBoundary => "edit range is not on UTF-8 character boundaries"@,
        EditFault::Overlap => "overlapping edits are not allowed"@,
    }
}

/// The source bytes from `pos` on, with the spans `s[i..]` put in place.
pub open spec fn splice(b: Seq<u8>, s: Seq<Span>, i: int, pos: int) -> Seq<u8>
    decreases s.len() - i,
{
    if i < 0 || i >= s.len() {
        b.subrange(pos, b.len() as int)
    } else {
        b.subrange(pos, s[i].start) + s[i].text + splice(b, s, i + 1, s[i].end)
    }
}

/// The first fault of the edits, taken in (start, end) order.
pub open spec fn edits_fault(b: Seq<u8>, edits: Seq<Edit>) -> Option<EditFault> {
    fault_from(b, sort_spans(spans(edits)), 0, 0)
}

/// The source bytes with every edit put in place, in (start, end) order.
pub open spec fn applied(b: Seq<u8>, edits: Seq<Edit>) -> Seq<u8> {
    splice(b, sort_spans(spans(edits)), 0, 0)
}

impl Clone for Edit {
    fn clone(&self) -> (r: Edit)
        ensures
            r == *self,
    {
        Edit {
            range: Range { start: self.range.start, end: self.range.end },
            replacement: self.replacement.clone(),
        }
    }
}

fn copy_edit(e: &Edit) -> (r: Edit)
    ensures
        r.span() == e.span(),
        r == *e,
{
    e.clone()
}

fn edit_le(a: &Edit, b: &Edit) -> (r: bool)
    ensures
        r == span_le(a.span(), b.span()),
{
    a.range.start < b.range.start || (a.range.start == b.range.start && a.range.end
        <= b.range.end)
}

/// The edits in (start, end) order; edits with equal ranges keep their order.
fn sort_edits(edits: &[Edit]) -> (r: Vec<Edit>)
    ensures
        spans(r@) == sort_spans(spans(edits@)),
{
    let ghost s = spans(edits@);
    let mut r: Vec<Edit> = Vec::new();
    let mut i: usize = 0;
    assert(s.take(0) =~= Seq::<Span>::empty());
    while i < edits.len()
        invariant
            i <= edits@.len(),
            s == spans(edits@),
            spans(r@) == sort_spans(s.take(i as int)),
        decreases edits@.len() - i,
    {
        let x = copy_edit(&edits[i]);
        let ghost sr = spans(r@);
        let mut j = r.len();
        assert(sr.take(r@.len() as int) =~= sr);
        while j > 0 && !edit_le(&r[j - 1], &x)
            invariant
                j <= r@.len(),
                sr == spans(r@),
                insert_pos(sr.take(j as int), x.span()) == insert_pos(sr, x.span()),
            decreases j,
        {
            assert(sr.take(j as int).drop_last() =~= sr.take(j - 1));
            j = j - 1;
        }
        assert(insert_pos(sr.take(j as int), x.span()) == j) by {
            if j > 0 {
                assert(sr.take(j as int).last() == sr[j - 1]);
            }
        }
        assert(sr.take(r@.len() as int) =~= sr);
        r.insert(j, x);
        assert(spans(r@) =~= sr.insert(j as int, x.span()));
        assert(s.take(i + 1).drop_last() =~= s.take(i as int));
        assert(s.take(i + 1).last() == x.span());
        i = i + 1;
    }
    assert(s.take(edits@.len() as int) =~= s);
    r
}

fn out_of_bounds_error(start: usize, end: usize) -> (e: EditError)
    ensures
        e.message@ == fault_message(EditFault::OutOfBounds(start as nat, end as nat)),
{
    let mut message = "edit range is outside source bounds: ".to_owned();
    push_decimal(&mut message, start);
    message.append("..");
    push_decimal(&mut message, end);
    EditError { message }
}

/// Checks edits in the order given: each range must lie within the source,
/// on character boundaries, and start no earlier than the previous one ends.
pub fn validate_edits(source: &str, edits: &[Edit]) -> (r: Result<(), EditError>)
    ensures
        match fault_from(source.spec_bytes(), spans(edits@), 0, 0) {
            None => r is Ok,
            Some(f) => r matches Err(e) && e.message@ == fault_message(f),
        },
{
    let ghost b = source.spec_bytes();
    let ghost s = spans(edits@);
    let mut previous_end: usize = 0;
    let mut index: usize = 0;
    while index < edits.len()
        invariant
            index <= edits@.len(),
            b == source.spec_bytes(),
            s == spans(edits@),
            fault_from(b, s, 0, 0) == fault_from(b, s, index as int, previous_end as int),
        decreases edits@.len() - index,
    {
        let edit = &edits[index];
        assert(s[index as int] == edit.span());
        if edit.range.start > edit.range.end || edit.range.end > source.as_bytes().len() {
            assert(s[index as int].start > s[index as int].end || s[index as int].end > b.len());
            assert(0 <= index < s.len());
            assert(fault_from(b, s, index as int, previous_end as int) == Some(
                EditFault::OutOfBounds(edit.range.start as nat, edit.range.end as nat),
            ));
            return Err(out_of_bounds_error(edit.range.start, edit.range.end));
        }
        if !source.is_char_boundary(edit.range.start) || !source.is_char_boundary(
            edit.range.end,
        ) {
            return Err(EditError::new("edit range is not on UTF-8 character boundaries"));
        }
        if index > 0 && edit.range.start < previous_end {
            return Err(EditError::new("overlapping edits are not allowed"));
        }
        previous_end = edit.range.end;
        index = index + 1;
    }
    Ok(())
}

/// Applies the edits to `source`, taken in (start, end) order; equal ranges
/// keep their given order. Fails when the ordered edits are invalid (see
/// [`validate_edits`]).
pub fn apply_edits(source: &str, edits: &[Edit]) -> (r: Result<String, EditError>)
    ensures
        match edits_fault(source.spec_bytes(), edits@) {
            None => r matches Ok(out) && encode_utf8(out@) == applied(
                source.spec_bytes(),
                edits@,
            ),
            Some(f) => r matches Err(e) && e.message@ == fault_message(f),
        },
{
    let b = source.as_bytes();
    let ghost bs = source.spec_bytes();
    proof {
        encode_utf8_valid_utf8(source@);
        is_char_boundary_start_end_of_seq(bs);
    }
    if edits.len() == 0 {
        proof {
            assert(spans(edits@) =~= Seq::<Span>::empty());
            assert(bs.subrange(0, bs.len() as int) =~= bs);
        }
        return Ok(source.to_owned());
    }
    let sorted = sort_edits(edits);
    let ghost s = spans(sorted@);
    match validate_edits(source, sorted.as_slice()) {
        Err(e) => {
            return Err(e);
        },
        Ok(()) => {},
    }
    let mut out: Vec<u8> = Vec::new();
    let mut pos: usize = 0;
    let mut i: usize = 0;
    proof {
        assert(valid_utf8(out@)) by {
            assert(out@ =~= Seq::<u8>::empty());
        }
    }
    while i < sorted.len()
        invariant
            b@ == bs,
            valid_utf8(bs),
            s == spans(sorted@),
            i <= s.len(),
            fault_from(bs, s, i as int, pos as int) is None,
            i == 0 ==> pos == 0,
            pos <= bs.len(),
            is_char_boundary(bs, pos as int),
            out@ + splice(bs, s, i as int, pos as int) == splice(bs, s, 0, 0),
            valid_utf8(out@),
        decreases s.len() - i,
    {
        let e = &sorted[i];
        assert(s[i as int] == e.span());
        proof {
            lemma_valid_subrange(bs, pos as int, e.range.start as int);
        }
        let ghost before = out@;
        push_range(&mut out, b, pos, e.range.start);
        push_all(&mut out, e.replacement.as_str().as_bytes());
        proof {
            let piece = bs.subrange(pos as int, e.range.start as int);
            let text = encode_utf8(e.replacement@);
            assert(out@ == before + piece + text);
            valid_utf8_concat(before, piece);
            valid_utf8_concat(before + piece, text);
            assert(before + splice(bs, s, i as int, pos as int) == before + piece + text + splice(
                bs,
                s,
                i + 1,
                e.range.end as int,
            ));
        }
        pos = e.range.end;
        i = i + 1;
    }
    let ghost before = out@;
    proof {
        lemma_valid_subrange(bs, pos as int, bs.len() as int);
    }
    push_range(&mut out, b, pos, b.len());
    proof {
        valid_utf8_concat(before, bs.subrange(pos as int, bs.len() as int));
    }
    Ok(string_from_valid(out))
}

} // verus!
