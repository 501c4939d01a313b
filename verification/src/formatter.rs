//! Formatting a source text: collect the syntax boundaries, derive the spacing
//! edits, and apply them.
use vstd::prelude::*;
use vstd::string::*;
use vstd::utf8::*;

use crate::config::Config;
use crate::edit::{applied, apply_edits, edits_fault, fault_message, Edit, EditFault};
use crate::errors::{EditError, ParseError};
use crate::laws::{law_formatting_changes_only_whitespace, strip_ws};
use crate::rules::{
    boundaries_edits, edit_spans, edits_for_boundaries, edits_for_file_boundaries,
    file_boundary_edits,
};
use crate::syntax::{all_wf, boundary_wf, collect_boundaries, parse_boundaries, Boundary};

verus! {

broadcast use vstd::utf8::group_utf8_lib;

/// The outcome of formatting a source text.
#[derive(Debug, PartialEq, Eq)]
pub struct FormatResult {
    pub output: String,
    /// Whether the output differs from the source.
    pub changed: bool,
    /// The edits that turned the source into the output.
    pub edits: Vec<Edit>,
}

/// Why a source text could not be formatted.
#[derive(Debug, Clone, PartialEq, Eq)]
pub enum FormatError {
    Parse(ParseError),
    Edit(EditError),
}

/// The edits that formatting derives from a set of boundaries: those of each
/// boundary in turn, then those at the ends of the file.
pub open spec fn format_edits(b: Seq<u8>, bds: Seq<Boundary>, config: Config) -> Seq<
    crate::edit::Span,
> {
    boundaries_edits(b, bds, config) + file_boundary_edits(b, config)
}

/// Formats `source`: the edits of the spacing rules at every boundary that the
/// parser finds, then those at the ends of the file, applied together. The
/// output differs from the source in whitespace only.
pub fn format_source(source: &str, config: &Config) -> (r: Result<FormatResult, FormatError>)
    ensures
        match r {
            Ok(res) => {
                &&& edit_spans(res.edits@) == format_edits(
                    source.spec_bytes(),
                    parse_boundaries(source.spec_bytes()),
                    *config,
                )
                &&& edits_fault(source.spec_bytes(), res.edits@) is None
                &&& encode_utf8(res.output@) == applied(source.spec_bytes(), res.edits@)
                &&& res.changed == (res.output@ != source@)
                &&& strip_ws(encode_utf8(res.output@)) == strip_ws(source.spec_bytes())
            },
            Err(FormatError::Edit(e)) => exists|edits: Seq<Edit>|
                #[trigger] edit_spans(edits) == format_edits(
                    source.spec_bytes(),
                    parse_boundaries(source.spec_bytes()),
                    *config,
                ) && (edits_fault(source.spec_bytes(), edits) matches Some(f) && e.message@
                    == fault_message(f)),
            Err(FormatError::Parse(_)) => false,
        },
{
    let boundaries = match collect_boundaries(source) {
        Ok(v) => v,
        Err(e) => {
            return Err(FormatError::Parse(e));
        },
    };
    let ghost bs = source.spec_bytes();
    proof {
        assert forall|i: int| 0 <= i < boundaries@.len() implies crate::rules::boundary_in_bounds(
            #[trigger] boundaries@[i],
            bs.len() as int,
        ) by {
            assert(boundary_wf(bs, boundaries@[i]));
        }
    }
    let mut edits = edits_for_boundaries(source, boundaries.as_slice(), config);
    let mut more = edits_for_file_boundaries(source, config);
    let ghost first = edits@;
    let ghost second = more@;
    edits.append(&mut more);
    proof {
        assert(edit_spans(edits@) =~= edit_spans(first) + edit_spans(second));
        assert(all_wf(bs, boundaries@));
    }
    match apply_edits(source, edits.as_slice()) {
        Ok(output) => {
            proof {
                encode_utf8_valid_utf8(source@);
                law_formatting_changes_only_whitespace(bs, boundaries@, *config, edits@);
            }
            let changed = !str_equal(output.as_str(), source);
            Ok(FormatResult { output, changed, edits })
        },
        Err(e) => {
            proof {
                assert(all_wf(bs, boundaries@) && edit_spans(edits@) == format_edits(
                    bs,
                    boundaries@,
                    *config,
                ));
            }
            Err(FormatError::Edit(e))
        },
    }
}

/// Whether two strings are equal.
pub fn str_equal(a: &str, b: &str) -> (r: bool)
    ensures
        r == (a@ == b@),
{
    let x = a.as_bytes();
    let y = b.as_bytes();
    proof {
        encode_utf8_decode_utf8(a@);
        encode_utf8_decode_utf8(b@);
    }
    if x.len() != y.len() {
        return false;
    }
    let mut i: usize = 0;
    while i < x.len()
        invariant
            x@ == a.spec_bytes(),
            y@ == b.spec_bytes(),
            x@.len() == y@.len(),
            i <= x@.len(),
            forall|k: int| 0 <= k < i ==> x@[k] == y@[k],
        decreases x@.len() - i,
    {
        if x[i] != y[i] {
            proof {
                assert(x@ != y@);
            }
            return false;
        }
        i = i + 1;
    }
    assert(x@ =~= y@);
    true
}

} // verus!
