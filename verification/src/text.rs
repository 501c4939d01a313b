//! Byte-level text primitives shared by the formatter: Unicode whitespace,
//! line structure, UTF-8 facts, and conversions back to `String`.
use vstd::prelude::*;
use vstd::utf8::*;

verus! {

broadcast use vstd::utf8::group_utf8_lib;

/// Width of the UTF-8 encoding of a `White_Space` character that starts at `i`
/// and ends no later than `e`, or 0 when no such character starts there.
///
/// The characters are U+0009..U+000D, U+0020, U+0085, U+00A0, U+1680,
/// U+2000..U+200A, U+2028, U+2029, U+202F, U+205F and U+3000: the set that
/// `char::is_whitespace` and `str::trim` use.
pub open spec fn ws_width(b: Seq<u8>, i: int, e: int) -> int {
    if 0 <= i < e && e <= b.len() {
        let c = b[i];
        if c == 9 || c == 10 || c == 11 || c == 12 || c == 13 || c == 32 {
            1
        } else if c == 0xc2 && i + 2 <= e && (b[i + 1] == 0x85 || b[i + 1] == 0xa0) {
            2
        } else if c == 0xe1 && i + 3 <= e && b[i + 1] == 0x9a && b[i + 2] == 0x80 {
            3
        } else if c == 0xe2 && i + 3 <= e && ((b[i + 1] == 0x80 && ((0x80 <= b[i + 2]
            && b[i + 2] <= 0x8a) || b[i + 2] == 0xa8 || b[i + 2] == 0xa9 || b[i + 2] == 0xaf))
            || (b[i + 1] == 0x81 && b[i + 2] == 0x9f)) {
            3
        } else if c == 0xe3 && i + 3 <= e && b[i + 1] == 0x80 && b[i + 2] == 0x80 {
            3
        } else {
            0
        }
    } else {
        0
    }
}

/// The first position at or after `a` that does not start a whitespace
/// character of `b[a..e]` (or `e`): where `trim_start` lets the text begin.
pub open spec fn skip_ws(b: Seq<u8>, a: int, e: int) -> int
    decreases e - a,
{
    if a < e && ws_width(b, a, e) > 0 {
        skip_ws(b, a + ws_width(b, a, e), e)
    } else {
        a
    }
}

/// `b[a..e]` consists of whitespace characters only (`trim().is_empty()`).
pub open spec fn is_blank(b: Seq<u8>, a: int, e: int) -> bool {
    skip_ws(b, a, e) >= e
}

/// Position of the first newline byte in `b[a..e]`, or `e` when there is none.
pub open spec fn next_nl(b: Seq<u8>, a: int, e: int) -> int
    decreases e - a,
{
    if a >= e {
        e
    } else if b[a] == 10 {
        a
    } else {
        next_nl(b, a + 1, e)
    }
}

/// End of the piece of `b[a..e]` that `split_inclusive('\n')` yields first:
/// just past the first newline, or `e`.
pub open spec fn piece_end(b: Seq<u8>, a: int, e: int) -> int {
    if next_nl(b, a, e) < e {
        next_nl(b, a, e) + 1
    } else {
        e
    }
}

/// The first newline of `b[a..e]` lies within it.
pub proof fn lemma_next_nl_bounds(b: Seq<u8>, a: int, e: int)
    requires
        a <= e,
    ensures
        a <= next_nl(b, a, e) <= e,
        next_nl(b, a, e) < e ==> b[next_nl(b, a, e)] == 10,
        forall|k: int| a <= k < next_nl(b, a, e) ==> b[k] != 10,
    decreases e - a,
{
    if a < e && b[a] != 10 {
        lemma_next_nl_bounds(b, a + 1, e);
    }
}

/// Number of lines of `b[a..e]`, as `str::lines` yields them, that are blank.
pub open spec fn blank_line_count(b: Seq<u8>, a: int, e: int) -> nat
    decreases e - a,
{
    if a >= e {
        0
    } else {
        proof {
            lemma_next_nl_bounds(b, a, e);
        }
        (if is_blank(b, a, next_nl(b, a, e)) {
            1nat
        } else {
            0nat
        }) + blank_line_count(b, piece_end(b, a, e), e)
    }
}

/// Start of the line that holds position `i`: just past the last newline before it.
pub open spec fn line_start(b: Seq<u8>, i: int) -> int
    decreases i,
{
    if i <= 0 {
        0
    } else if b[i - 1] == 10 {
        i
    } else {
        line_start(b, i - 1)
    }
}

/// A line starts no later than any position on it.
pub proof fn lemma_line_start_le(b: Seq<u8>, i: int)
    requires
        0 <= i,
    ensures
        0 <= line_start(b, i) <= i,
    decreases i,
{
    if i > 0 && b[i - 1] != 10 {
        lemma_line_start_le(b, i - 1);
    }
}

/// A carriage return directly followed by a newline starts at `i`.
pub open spec fn crlf_at(b: Seq<u8>, i: int) -> bool {
    0 <= i && i + 1 < b.len() && b[i] == 13 && b[i + 1] == 10
}

/// Whether `b` holds a carriage return directly followed by a newline.
pub open spec fn has_crlf(b: Seq<u8>) -> bool {
    exists|i: int| #[trigger] crlf_at(b, i)
}

/// The line ending that a file uses: CRLF as soon as it holds one, else LF.
pub open spec fn newline_bytes(b: Seq<u8>) -> Seq<u8> {
    if has_crlf(b) {
        seq![13u8, 10u8]
    } else {
        seq![10u8]
    }
}

/// `n` repetitions of `s`.
pub open spec fn repeat_bytes(s: Seq<u8>, n: nat) -> Seq<u8>
    decreases n,
{
    if n == 0 {
        Seq::empty()
    } else {
        repeat_bytes(s, (n - 1) as nat) + s
    }
}

/// All bytes of `s` are ASCII.
pub open spec fn all_ascii(s: Seq<u8>) -> bool {
    forall|i: int| 0 <= i < s.len() ==> #[trigger] s[i] < 128
}

/// Byte width of the UTF-8 encoding that a leading byte announces.
pub open spec fn utf8_width(byte: u8) -> int {
    if byte < 0x80 {
        1
    } else if 0xc0 <= byte && byte <= 0xdf {
        2
    } else if 0xe0 <= byte && byte <= 0xef {
        3
    } else {
        4
    }
}

/// The decimal digit for `d` (taken modulo ten).
pub open spec fn digit_char(d: nat) -> char {
    let d = d % 10;
    if d == 0 {
        '0'
    } else if d == 1 {
        '1'
    } else if d == 2 {
        '2'
    } else if d == 3 {
        '3'
    } else if d == 4 {
        '4'
    } else if d == 5 {
        '5'
    } else if d == 6 {
        '6'
    } else if d == 7 {
        '7'
    } else if d == 8 {
        '8'
    } else {
        '9'
    }
}

/// The decimal notation of `n`, as `Display` and `Debug` print integers.
pub open spec fn decimal(n: nat) -> Seq<char>
    decreases n,
{
    if n < 10 {
        seq![digit_char(n)]
    } else {
        decimal(n / 10).push(digit_char(n % 10))
    }
}

// ---------------------------------------------------------------------------
// UTF-8 facts
// ---------------------------------------------------------------------------
/// In valid UTF-8 a position is a character boundary exactly when it is the
/// end or its byte is not a continuation byte.
pub proof fn lemma_boundary_iff(b: Seq<u8>, i: int)
    requires
        valid_utf8(b),
        0 <= i <= b.len(),
    ensures
        is_char_boundary(b, i) <==> (i == b.len() || !is_continuation_byte(b[i])),
{
    if i < b.len() {
        is_char_boundary_iff_not_is_continuation_byte(b, i);
    } else {
        is_char_boundary_start_end_of_seq(b);
    }
}

/// From a character boundary, stepping over one whole character lands on the
/// next boundary, and the character is as wide as its leading byte says.
pub proof fn lemma_scalar_step(b: Seq<u8>, i: int)
    requires
        valid_utf8(b),
        is_char_boundary(b, i),
        0 <= i < b.len(),
    ensures
        i + utf8_width(b[i]) <= b.len(),
        is_char_boundary(b, i + utf8_width(b[i])),
    decreases b.len(),
{
    let n = b.len() as int;
    let l = length_of_first_scalar(b);
    let p = pop_first_scalar(b);
    assert(valid_first_scalar(b) && valid_utf8(p));
    assert(p.len() == n - l);
    if i == 0 {
        assert(l == utf8_width(b[0]));
        assert(is_char_boundary(p, 0));
    } else {
        assert(is_char_boundary(p, i - l));
        lemma_scalar_step(p, i - l);
        assert(p[i - l] == b[i]);
        let j = i + utf8_width(b[i]);
        assert(is_char_boundary(p, j - l));
    }
}

/// In valid UTF-8 the position after an ASCII byte is a character boundary.
pub proof fn lemma_boundary_after_ascii(b: Seq<u8>, i: int)
    requires
        valid_utf8(b),
        0 < i <= b.len(),
        b[i - 1] < 128,
    ensures
        is_char_boundary(b, i),
{
    lemma_boundary_iff(b, i - 1);
    lemma_scalar_step(b, i - 1);
}

/// In valid UTF-8 the position after the start of a line is a boundary.
pub proof fn lemma_line_start_boundary(b: Seq<u8>, i: int)
    requires
        valid_utf8(b),
        0 <= i <= b.len(),
    ensures
        is_char_boundary(b, line_start(b, i)),
        0 <= line_start(b, i) <= i,
    decreases i,
{
    if i <= 0 {
        lemma_boundary_iff(b, 0);
        is_char_boundary_start_end_of_seq(b);
    } else if b[i - 1] == 10 {
        lemma_boundary_after_ascii(b, i);
    } else {
        lemma_line_start_boundary(b, i - 1);
    }
}

/// Skipping whitespace from a character boundary ends on a character boundary.
pub proof fn lemma_skip_ws_boundary(b: Seq<u8>, a: int, e: int)
    requires
        valid_utf8(b),
        0 <= a <= e <= b.len(),
        is_char_boundary(b, a),
    ensures
        is_char_boundary(b, skip_ws(b, a, e)),
        a <= skip_ws(b, a, e) <= e,
    decreases e - a,
{
    if a < e && ws_width(b, a, e) > 0 {
        lemma_scalar_step(b, a);
        assert(utf8_width(b[a]) == ws_width(b, a, e));
        lemma_skip_ws_boundary(b, a + ws_width(b, a, e), e);
    }
}

/// The bytes between two character boundaries of valid UTF-8 are valid UTF-8.
pub proof fn lemma_valid_subrange(b: Seq<u8>, a: int, c: int)
    requires
        valid_utf8(b),
        0 <= a <= c <= b.len(),
        is_char_boundary(b, a),
        is_char_boundary(b, c),
    ensures
        valid_utf8(b.subrange(a, c)),
{
    valid_utf8_split(b, c);
    let p = b.subrange(0, c);
    if a < c {
        lemma_boundary_iff(b, a);
        lemma_boundary_iff(p, a);
        valid_utf8_split(p, a);
        assert(p.subrange(a, c) =~= b.subrange(a, c));
    } else {
        assert(b.subrange(a, c) =~= Seq::<u8>::empty());
        assert(valid_utf8(Seq::<u8>::empty()));
    }
}

/// A sequence of ASCII bytes is valid UTF-8.
pub proof fn lemma_ascii_valid(s: Seq<u8>)
    requires
        all_ascii(s),
    ensures
        valid_utf8(s),
    decreases s.len(),
{
    if s.len() > 0 {
        let c = s[0];
        assert(c < 128);
        assert((c & 0x7f) as u32 <= 0x7f) by (bit_vector);
        let rest = s.subrange(1, s.len() as int);
        assert(all_ascii(rest)) by {
            assert forall|i: int| 0 <= i < rest.len() implies #[trigger] rest[i] < 128 by {
                assert(rest[i] == s[i + 1]);
            }
        }
        lemma_ascii_valid(rest);
        assert(pop_first_scalar(s) =~= rest);
    }
}

// ---------------------------------------------------------------------------
// Executable primitives
// ---------------------------------------------------------------------------
/// `String::from_utf8`: succeeds exactly on valid UTF-8, and the string then
/// holds those bytes.
#[verifier::external_body]
fn string_from_utf8(bytes: Vec<u8>) -> (r: Option<String>)
    ensures
        r is Some <==> valid_utf8(bytes@),
        r matches Some(s) ==> encode_utf8(s@) == bytes@,
{
    String::from_utf8(bytes).ok()
}

/// The string whose UTF-8 encoding is `bytes`.
pub fn string_from_valid(bytes: Vec<u8>) -> (s: String)
    requires
        valid_utf8(bytes@),
    ensures
        encode_utf8(s@) == bytes@,
{
    match string_from_utf8(bytes) {
        Some(s) => s,
        None => {
            proof {
                assert(false);
            }
            String::new()
        },
    }
}

/// Width of the whitespace character at `i` within `b[..e]` (see [`ws_width`]).
pub fn ws_width_at(b: &[u8], i: usize, e: usize) -> (w: usize)
    requires
        e <= b@.len(),
    ensures
        w == ws_width(b@, i as int, e as int),
{
    if i >= e {
        return 0;
    }
    let c = b[i];
    if c == 9 || c == 10 || c == 11 || c == 12 || c == 13 || c == 32 {
        1
    } else if c == 0xc2 && e - i >= 2 && (b[i + 1] == 0x85 || b[i + 1] == 0xa0) {
        2
    } else if c == 0xe1 && e - i >= 3 && b[i + 1] == 0x9a && b[i + 2] == 0x80 {
        3
    } else if c == 0xe2 && e - i >= 3 && ((b[i + 1] == 0x80 && ((0x80 <= b[i + 2] && b[i + 2]
        <= 0x8a) || b[i + 2] == 0xa8 || b[i + 2] == 0xa9 || b[i + 2] == 0xaf)) || (b[i + 1]
        == 0x81 && b[i + 2] == 0x9f)) {
        3
    } else if c == 0xe3 && e - i >= 3 && b[i + 1] == 0x80 && b[i + 2] == 0x80 {
        3
    } else {
        0
    }
}

/// Skips whitespace characters of `b[a..e]` (see [`skip_ws`]).
pub fn skip_ws_at(b: &[u8], a: usize, e: usize) -> (p: usize)
    requires
        e <= b@.len(),
    ensures
        p == skip_ws(b@, a as int, e as int),
{
    let mut p = a;
    while p < e
        invariant
            e <= b@.len(),
            skip_ws(b@, p as int, e as int) == skip_ws(b@, a as int, e as int),
        decreases e - p,
    {
        let w = ws_width_at(b, p, e);
        if w == 0 {
            return p;
        }
        p = p + w;
    }
    p
}

/// Whether `b[a..e]` is blank (see [`is_blank`]).
pub fn blank_at(b: &[u8], a: usize, e: usize) -> (r: bool)
    requires
        e <= b@.len(),
    ensures
        r == is_blank(b@, a as int, e as int),
{
    skip_ws_at(b, a, e) >= e
}

/// Position of the first newline in `b[a..e]`, or `e` (see [`next_nl`]).
pub fn find_nl(b: &[u8], a: usize, e: usize) -> (p: usize)
    requires
        e <= b@.len(),
    ensures
        p == next_nl(b@, a as int, e as int),
        a <= e ==> a <= p <= e,
        a > e ==> p == e,
{
    let mut p = a;
    if p > e {
        return e;
    }
    while p < e
        invariant
            a <= p <= e <= b@.len(),
            next_nl(b@, p as int, e as int) == next_nl(b@, a as int, e as int),
        decreases e - p,
    {
        if b[p] == 10 {
            return p;
        }
        p = p + 1;
    }
    p
}

/// Start of the line holding position `i` (see [`line_start`]).
pub fn line_start_at(b: &[u8], i: usize) -> (p: usize)
    requires
        i <= b@.len(),
    ensures
        p == line_start(b@, i as int),
        p <= i,
{
    let mut p = i;
    while p > 0 && b[p - 1] != 10
        invariant
            p <= i <= b@.len(),
            line_start(b@, p as int) == line_start(b@, i as int),
        decreases p,
    {
        p = p - 1;
    }
    p
}

/// Whether the text holds a CRLF pair.
pub fn contains_crlf(b: &[u8]) -> (r: bool)
    ensures
        r == has_crlf(b@),
{
    let n = b.len();
    let mut i: usize = 0;
    while i < n
        invariant
            n == b@.len(),
            forall|k: int| 0 <= k < i ==> !#[trigger] crlf_at(b@, k),
        decreases n - i,
    {
        if i + 1 < n && b[i] == 13 && b[i + 1] == 10 {
            assert(crlf_at(b@, i as int));
            return true;
        }
        i = i + 1;
    }
    assert forall|k: int| !#[trigger] crlf_at(b@, k) by {
        if 0 <= k < i {
        }
    }
    false
}

fn digit_str(d: usize) -> (s: &'static str)
    requires
        d < 10,
    ensures
        s@ == seq![digit_char(d as nat)],
{
    proof {
        reveal_strlit("0");
        reveal_strlit("1");
        reveal_strlit("2");
        reveal_strlit("3");
        reveal_strlit("4");
        reveal_strlit("5");
        reveal_strlit("6");
        reveal_strlit("7");
        reveal_strlit("8");
        reveal_strlit("9");
    }
    if d == 0 {
        "0"
    } else if d == 1 {
        "1"
    } else if d == 2 {
        "2"
    } else if d == 3 {
        "3"
    } else if d == 4 {
        "4"
    } else if d == 5 {
        "5"
    } else if d == 6 {
        "6"
    } else if d == 7 {
        "7"
    } else if d == 8 {
        "8"
    } else {
        "9"
    }
}

/// Appends the decimal notation of `n` to `s`.
pub fn push_decimal(s: &mut String, n: usize)
    ensures
        final(s)@ == old(s)@ + decimal(n as nat),
    decreases n,
{
    if n >= 10 {
        push_decimal(s, n / 10);
    }
    let d = digit_str(n % 10);
    s.append(d);
    assert(digit_char((n % 10) as nat) == digit_char(n as nat));
}

/// Appends `b[a..e]` to `out`.
pub fn push_range(out: &mut Vec<u8>, b: &[u8], a: usize, e: usize)
    requires
        a <= e <= b@.len(),
    ensures
        final(out)@ == old(out)@ + b@.subrange(a as int, e as int),
{
    let mut i = a;
    while i < e
        invariant
            a <= i <= e <= b@.len(),
            out@ == old(out)@ + b@.subrange(a as int, i as int),
        decreases e - i,
    {
        out.push(b[i]);
        i = i + 1;
        assert(b@.subrange(a as int, i as int) =~= b@.subrange(a as int, i - 1 as int).push(
            b@[i - 1],
        ));
    }
}

/// Appends all of `b` to `out`.
pub fn push_all(out: &mut Vec<u8>, b: &[u8])
    ensures
        final(out)@ == old(out)@ + b@,
{
    push_range(out, b, 0, b.len());
    assert(b@.subrange(0, b@.len() as int) =~= b@);
}

} // verus!
