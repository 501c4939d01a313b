//! The rustfmt-style line diff that `--check` prints.
use vstd::prelude::*;
use vstd::string::*;
use vstd::utf8::*;

use crate::text::{
    all_ascii, lemma_ascii_valid, lemma_boundary_after_ascii, lemma_next_nl_bounds,
    lemma_valid_subrange, find_nl, next_nl, piece_end, push_all, push_range, string_from_valid,
};

verus! {

broadcast use vstd::utf8::group_utf8_lib;

// ---------------------------------------------------------------------------
// Specification
// ---------------------------------------------------------------------------
/// The lines of `b[a..]`, each with its newline, as `split_inclusive('\n')` cuts them.
pub open spec fn line_pieces(b: Seq<u8>, a: int) -> Seq<Seq<u8>>
    decreases b.len() - a,
{
    if a < 0 || a >= b.len() {
        Seq::empty()
    } else {
        proof {
            lemma_next_nl_bounds(b, a, b.len() as int);
        }
        seq![b.subrange(a, piece_end(b, a, b.len() as int))] + line_pieces(
            b,
            piece_end(b, a, b.len() as int),
        )
    }
}

/// Length of a longest common subsequence of `o[i..]` and `n[j..]`.
pub open spec fn lcs(o: Seq<Seq<u8>>, n: Seq<Seq<u8>>, i: int, j: int) -> nat
    decreases o.len() - i + n.len() - j,
{
    if i < 0 || j < 0 || i >= o.len() || j >= n.len() {
        0
    } else if o[i] == n[j] {
        lcs(o, n, i + 1, j + 1) + 1
    } else {
        let down = lcs(o, n, i + 1, j);
        let right = lcs(o, n, i, j + 1);
        if down >= right {
            down
        } else {
            right
        }
    }
}

/// A line of the diff: its marker byte (` `, `-` or `+`), its text, and the
/// number of the old line it stands at.
pub struct Entry {
    pub kind: u8,
    pub text: Seq<u8>,
    pub old_line: nat,
}

/// The diff of `o[i..]` against `n[j..]`: common lines are kept, and where
/// they differ a removal comes first whenever dropping the old line keeps a
/// longest common subsequence.
pub open spec fn diff_walk(o: Seq<Seq<u8>>, n: Seq<Seq<u8>>, i: int, j: int) -> Seq<Entry>
    decreases o.len() - i + n.len() - j,
{
    if i < 0 || j < 0 || i > o.len() || j > n.len() || (i == o.len() && j == n.len()) {
        Seq::empty()
    } else if i < o.len() && j < n.len() && o[i] == n[j] {
        seq![Entry { kind: 32, text: o[i], old_line: (i + 1) as nat }] + diff_walk(o, n, i + 1, j + 1)
    } else if j >= n.len() || (i < o.len() && lcs(o, n, i + 1, j) >= lcs(o, n, i, j + 1)) {
        seq![Entry { kind: 45, text: o[i], old_line: (i + 1) as nat }] + diff_walk(o, n, i + 1, j)
    } else {
        seq![Entry { kind: 43, text: n[j], old_line: (i + 1) as nat }] + diff_walk(o, n, i, j + 1)
    }
}

/// Indices of the entries from `k` on that are not common lines.
pub open spec fn changed_from(es: Seq<Entry>, k: int) -> Seq<int>
    decreases es.len() - k,
{
    if k < 0 || k >= es.len() {
        Seq::empty()
    } else {
        (if es[k].kind != 32 {
            seq![k]
        } else {
            Seq::empty()
        }) + changed_from(es, k + 1)
    }
}

/// End of the group of changes that continues at `e`: changes at most six
/// entries apart belong together.
pub open spec fn group_end(c: Seq<int>, e: int) -> int
    decreases c.len() - e,
{
    if e <= 0 || e >= c.len() || c[e] > c[e - 1] + 6 {
        e
    } else {
        group_end(c, e + 1)
    }
}

/// The decimal notation of `n` in ASCII.
pub open spec fn decimal_bytes(n: nat) -> Seq<u8>
    decreases n,
{
    if n < 10 {
        seq![(48 + n) as u8]
    } else {
        decimal_bytes(n / 10).push((48 + n % 10) as u8)
    }
}

/// A diff line as printed: marker, text, and a newline when the text lacks one.
pub open spec fn render_line(e: Entry) -> Seq<u8> {
    seq![e.kind] + e.text + (if e.text.len() > 0 && e.text.last() == 10 {
        Seq::empty()
    } else {
        seq![10u8]
    })
}

pub open spec fn render_range(es: Seq<Entry>, a: int, e: int) -> Seq<u8>
    decreases e - a,
{
    if a >= e {
        Seq::empty()
    } else {
        render_line(es[a]) + render_range(es, a + 1, e)
    }
}

/// `Diff in <path>:<line>:` and a newline.
pub open spec fn header(path: Seq<u8>, line: nat) -> Seq<u8> {
    encode_utf8("Diff in "@) + path + seq![58u8] + decimal_bytes(line) + seq![58u8, 10u8]
}

/// The first entry printed for the group whose first change is the `g`-th:
/// up to three entries of context before it.
pub open spec fn context_start(c: Seq<int>, g: int) -> int {
    if c[g] >= 3 {
        c[g] - 3
    } else {
        0
    }
}

/// The entry after the last one printed for the group that ends before the
/// `ge`-th change: up to three entries of context after its last change,
/// within the `n` entries.
pub open spec fn context_end(n: int, c: Seq<int>, ge: int) -> int {
    if c[ge - 1] + 4 <= n {
        c[ge - 1] + 4
    } else {
        n
    }
}

/// The groups of changes from the `g`-th change on, each with a header and
/// up to three lines of context on either side.
pub open spec fn render_groups(path: Seq<u8>, es: Seq<Entry>, c: Seq<int>, g: int) -> Seq<u8>
    decreases c.len() - g,
{
    if g < 0 || g >= c.len() {
        Seq::empty()
    } else {
        let first = c[g];
        let ge = group_end(c, g + 1);
        let start = context_start(c, g);
        let end = context_end(es.len() as int, c, ge);
        let line = if es[first].old_line >= 1 {
            es[first].old_line
        } else {
            1
        };
        proof {
            lemma_group_end_bounds(c, g + 1);
        }
        header(path, line) + render_range(es, start, end) + render_groups(path, es, c, ge)
    }
}

/// The whole diff of `source` against `formatted`, headed with `path`.
pub open spec fn diff_spec(path: Seq<u8>, source: Seq<u8>, formatted: Seq<u8>) -> Seq<u8> {
    let es = diff_walk(line_pieces(source, 0), line_pieces(formatted, 0), 0, 0);
    render_groups(path, es, changed_from(es, 0), 0)
}

pub proof fn lemma_group_end_bounds(c: Seq<int>, e: int)
    ensures
        e <= 0 || e >= c.len() ==> group_end(c, e) == e,
        0 < e <= c.len() ==> e <= group_end(c, e) <= c.len(),
    decreases c.len() - e,
{
    if !(e <= 0 || e >= c.len() || c[e] > c[e - 1] + 6) {
        lemma_group_end_bounds(c, e + 1);
    }
}

/// The changes from entry `k` on lie at `k` or later, within the entries, in
/// increasing order, and each is an entry that is not a common line.
proof fn lemma_changed_from(es: Seq<Entry>, k: int)
    requires
        0 <= k,
    ensures
        forall|i: int|
            0 <= i < changed_from(es, k).len() ==> k <= #[trigger] changed_from(es, k)[i] < es.len()
                && es[changed_from(es, k)[i]].kind != 32,
        forall|i: int, j: int|
            0 <= i < j < changed_from(es, k).len() ==> changed_from(es, k)[i] < changed_from(
                es,
                k,
            )[j],
    decreases es.len() - k,
{
    if k < es.len() {
        lemma_changed_from(es, k + 1);
        let r = changed_from(es, k + 1);
        if es[k].kind != 32 {
            assert(changed_from(es, k) =~= seq![k] + r);
            assert forall|i: int| 0 < i < changed_from(es, k).len() implies changed_from(es, k)[i]
                == r[i - 1] by {}
        } else {
            assert(changed_from(es, k) =~= Seq::<int>::empty() + r);
        }
    }
}

/// Inside a group, each change follows the one before at most six entries
/// later, and a group ends only before a change further away than that.
proof fn lemma_group_end_gaps(c: Seq<int>, e: int)
    requires
        0 < e <= c.len(),
    ensures
        forall|k: int| e <= k < group_end(c, e) ==> #[trigger] c[k] <= c[k - 1] + 6,
        group_end(c, e) < c.len() ==> c[group_end(c, e)] > c[group_end(c, e) - 1] + 6,
    decreases c.len() - e,
{
    lemma_group_end_bounds(c, e);
    if !(e >= c.len() || c[e] > c[e - 1] + 6) {
        lemma_group_end_gaps(c, e + 1);
    }
}

/// The diff prints each entry at most once and every change: a group shares
/// its header with each following change that comes at most six entries
/// after the one before it, and with no other; its lines run from up to three
/// entries before its first change to up to three after its last, within the
/// entries; and the next group's lines begin no earlier than this group's end.
pub proof fn law_diff_groups_disjoint(es: Seq<Entry>, g: int)
    requires
        0 <= g < changed_from(es, 0).len(),
    ensures
        ({
            let c = changed_from(es, 0);
            let ge = group_end(c, g + 1);
            &&& g + 1 <= ge <= c.len()
            &&& forall|k: int| g < k < ge ==> #[trigger] c[k] <= c[k - 1] + 6
            &&& ge < c.len() ==> c[ge] > c[ge - 1] + 6
            &&& 0 <= context_start(c, g) <= c[g]
            &&& c[ge - 1] < context_end(es.len() as int, c, ge) <= es.len()
            &&& ge < c.len() ==> context_end(es.len() as int, c, ge) <= context_start(c, ge)
        }),
{
    let c = changed_from(es, 0);
    lemma_changed_from(es, 0);
    lemma_group_end_bounds(c, g + 1);
    lemma_group_end_gaps(c, g + 1);
    let ge = group_end(c, g + 1);
    assert(c[ge - 1] < es.len());
    if g + 1 < ge {
        assert(c[g] <= c[ge - 1]);
    }
}

pub open spec fn views(s: Seq<Vec<u8>>) -> Seq<Seq<u8>> {
    s.map_values(|v: Vec<u8>| v@)
}

/// A longest common subsequence is no longer than what is left of `o`.
proof fn lemma_lcs_bound(o: Seq<Seq<u8>>, n: Seq<Seq<u8>>, i: int, j: int)
    requires
        0 <= i <= o.len(),
        0 <= j <= n.len(),
    ensures
        lcs(o, n, i, j) <= o.len() - i,
    decreases o.len() - i + n.len() - j,
{
    if i < o.len() && j < n.len() {
        if o[i] == n[j] {
            lemma_lcs_bound(o, n, i + 1, j + 1);
        } else {
            lemma_lcs_bound(o, n, i + 1, j);
            lemma_lcs_bound(o, n, i, j + 1);
        }
    }
}

/// There are no more lines than bytes.
proof fn lemma_line_pieces_len(b: Seq<u8>, a: int)
    requires
        0 <= a <= b.len(),
    ensures
        line_pieces(b, a).len() <= b.len() - a,
    decreases b.len() - a,
{
    if a < b.len() {
        lemma_next_nl_bounds(b, a, b.len() as int);
        lemma_line_pieces_len(b, piece_end(b, a, b.len() as int));
    }
}

// ---------------------------------------------------------------------------
// Implementation
// ---------------------------------------------------------------------------
/// One line of a diff: a marker byte (` `, `-`, `+`), the line's text, and the
/// number of the old line it stands at.
struct DiffLine {
    kind: u8,
    text: Vec<u8>,
    old_line: usize,
}

impl DiffLine {
    spec fn view(&self) -> Entry {
        Entry { kind: self.kind, text: self.text@, old_line: self.old_line as nat }
    }

    fn same(text: Vec<u8>, old_line: usize) -> (r: Self)
        ensures
            r.view() == (Entry { kind: 32, text: text@, old_line: old_line as nat }),
    {
        DiffLine { kind: 32, text, old_line }
    }

    fn removed(text: Vec<u8>, old_line: usize) -> (r: Self)
        ensures
            r.view() == (Entry { kind: 45, text: text@, old_line: old_line as nat }),
    {
        DiffLine { kind: 45, text, old_line }
    }

    fn added(text: Vec<u8>, old_line: usize) -> (r: Self)
        ensures
            r.view() == (Entry { kind: 43, text: text@, old_line: old_line as nat }),
    {
        DiffLine { kind: 43, text, old_line }
    }
}

spec fn entries(s: Seq<DiffLine>) -> Seq<Entry> {
    s.map_values(|d: DiffLine| d.view())
}

/// The lines of `source`, each with its newline (see [`line_pieces`]).
fn split_lines(source: &str) -> (lines: Vec<Vec<u8>>)
    ensures
        views(lines@) == line_pieces(source.spec_bytes(), 0),
        forall|k: int| 0 <= k < lines@.len() ==> valid_utf8(#[trigger] lines@[k]@),
{
    let b = source.as_bytes();
    let ghost bs = b@;
    let n = b.len();
    proof {
        encode_utf8_valid_utf8(source@);
        is_char_boundary_start_end_of_seq(bs);
    }
    let mut lines: Vec<Vec<u8>> = Vec::new();
    let mut a: usize = 0;
    while a < n
        invariant
            bs == b@,
            n == bs.len(),
            valid_utf8(bs),
            a <= n,
            is_char_boundary(bs, a as int),
            views(lines@) + line_pieces(bs, a as int) == line_pieces(bs, 0),
            forall|k: int| 0 <= k < lines@.len() ==> valid_utf8(#[trigger] lines@[k]@),
        decreases n - a,
    {
        let nl = find_nl(b, a, n);
        let pe = if nl < n {
            nl + 1
        } else {
            n
        };
        proof {
            lemma_next_nl_bounds(bs, a as int, n as int);
            if nl < n {
                lemma_boundary_after_ascii(bs, pe as int);
            }
            lemma_valid_subrange(bs, a as int, pe as int);
        }
        let mut piece: Vec<u8> = Vec::new();
        push_range(&mut piece, b, a, pe);
        let ghost before = lines@;
        lines.push(piece);
        proof {
            assert(views(lines@) =~= views(before).push(piece@));
            assert(piece@ =~= bs.subrange(a as int, pe as int));
            assert forall|k: int| 0 <= k < lines@.len() implies valid_utf8(#[trigger] lines@[k]@) by {
                if k < before.len() {
                    assert(lines@[k] == before[k]);
                }
            }
        }
        a = pe;
    }
    proof {
        assert(views(lines@) + line_pieces(bs, a as int) == views(lines@) + Seq::<Seq<u8>>::empty());
        assert(views(lines@) + Seq::<Seq<u8>>::empty() =~= views(lines@));
    }
    lines
}

fn bytes_equal(a: &Vec<u8>, b: &Vec<u8>) -> (r: bool)
    ensures
        r == (a@ == b@),
{
    if a.len() != b.len() {
        return false;
    }
    let mut i: usize = 0;
    while i < a.len()
        invariant
            a@.len() == b@.len(),
            i <= a@.len(),
            forall|k: int| 0 <= k < i ==> a@[k] == b@[k],
        decreases a@.len() - i,
    {
        if a[i] != b[i] {
            return false;
        }
        i = i + 1;
    }
    assert(a@ =~= b@);
    true
}

fn copy_bytes(v: &Vec<u8>) -> (r: Vec<u8>)
    ensures
        r@ == v@,
{
    let mut r: Vec<u8> = Vec::new();
    push_all(&mut r, v.as_slice());
    r
}

/// Entry `j` of a table row, where the missing last column holds zero.
fn cell(row: &Vec<usize>, j: usize) -> (r: usize)
    ensures
        j < row@.len() ==> r == row@[j as int],
        j >= row@.len() ==> r == 0,
{
    if j < row.len() {
        row[j]
    } else {
        0
    }
}

/// The table of [`lcs`] values: row `k` holds `lcs(O - 1 - k, j)` for each
/// `j < N`; the last row and column, all zero, are left out.
fn lcs_table(o: &Vec<Vec<u8>>, n: &Vec<Vec<u8>>) -> (rows: Vec<Vec<usize>>)
    ensures
        rows@.len() == o@.len(),
        forall|k: int|
            0 <= k < rows@.len() ==> (#[trigger] rows@[k])@.len() == n@.len() && forall|j: int|
                0 <= j < n@.len() ==> rows@[k]@[j] == lcs(
                    views(o@),
                    views(n@),
                    o@.len() - 1 - k,
                    j,
                ),
{
    let ghost ov = views(o@);
    let ghost nv = views(n@);
    let big_o = o.len();
    let big_n = n.len();
    let mut rows: Vec<Vec<usize>> = Vec::new();
    let mut i = big_o;
    while i > 0
        invariant
            ov == views(o@),
            nv == views(n@),
            big_o == o@.len(),
            big_n == n@.len(),
            i <= big_o,
            rows@.len() == big_o - i,
            forall|k: int|
                0 <= k < rows@.len() ==> (#[trigger] rows@[k])@.len() == big_n && forall|j: int|
                    0 <= j < big_n ==> rows@[k]@[j] == lcs(ov, nv, big_o - 1 - k, j),
        decreases i,
    {
        i = i - 1;
        let mut row: Vec<usize> = Vec::new();
        let mut z: usize = 0;
        while z < big_n
            invariant
                z <= big_n,
                row@.len() == z,
            decreases big_n - z,
        {
            row.push(0);
            z = z + 1;
        }
        let mut j = big_n;
        while j > 0
            invariant
                ov == views(o@),
                nv == views(n@),
                big_o == o@.len(),
                big_n == n@.len(),
                i < big_o,
                rows@.len() == big_o - 1 - i,
                forall|k: int|
                    0 <= k < rows@.len() ==> (#[trigger] rows@[k])@.len() == big_n && forall|
                        jj: int,
                    |
                        0 <= jj < big_n ==> rows@[k]@[jj] == lcs(ov, nv, big_o - 1 - k, jj),
                j <= big_n,
                row@.len() == big_n,
                forall|jj: int| j <= jj < big_n ==> row@[jj] == lcs(ov, nv, i as int, jj),
            decreases j,
        {
            j = j - 1;
            let down = if i + 1 < big_o {
                cell(&rows[rows.len() - 1], j)
            } else {
                0
            };
            let diag = if i + 1 < big_o {
                cell(&rows[rows.len() - 1], j + 1)
            } else {
                0
            };
            let right = cell(&row, j + 1);
            proof {
                assert(ov[i as int] == o@[i as int]@);
                assert(nv[j as int] == n@[j as int]@);
                if i + 1 < big_o {
                    assert(rows@[rows@.len() - 1]@.len() == big_n);
                }
                lemma_lcs_bound(ov, nv, i + 1, j + 1);
            }
            let v = if bytes_equal(&o[i], &n[j]) {
                diag + 1
            } else if down >= right {
                down
            } else {
                right
            };
            proof {
                if i + 1 < big_o {
                    let last = rows@.len() - 1;
                    assert(big_o - 1 - last == i + 1);
                    if j + 1 < big_n {
                        assert(diag == rows@[last]@[j + 1]);
                    }
                    assert(down == rows@[last]@[j as int]);
                }
                assert(diag == lcs(ov, nv, i + 1, j + 1));
                assert(down == lcs(ov, nv, i + 1, j as int));
                assert(right == lcs(ov, nv, i as int, j + 1));
                assert(v == lcs(ov, nv, i as int, j as int));
            }
            row.set(j, v);
        }
        let ghost before = rows@;
        rows.push(row);
        proof {
            assert forall|k: int| 0 <= k < rows@.len() implies (#[trigger] rows@[k])@.len() == big_n
                && forall|jj: int|
                0 <= jj < big_n ==> rows@[k]@[jj] == lcs(ov, nv, big_o - 1 - k, jj) by {
                if k < before.len() {
                    assert(rows@[k] == before[k]);
                }
            }
        }
    }
    rows
}

spec fn table_wf(rows: Seq<Vec<usize>>, ov: Seq<Seq<u8>>, nv: Seq<Seq<u8>>) -> bool {
    &&& rows.len() == ov.len()
    &&& forall|k: int|
        0 <= k < rows.len() ==> (#[trigger] rows[k])@.len() == nv.len() && forall|j: int|
            0 <= j < nv.len() ==> rows[k]@[j] == lcs(ov, nv, ov.len() - 1 - k, j)
}

/// `lcs(i, j)` read from the table.
fn table_at(rows: &Vec<Vec<usize>>, big_n: usize, i: usize, j: usize) -> (r: usize)
    requires
        exists|ov: Seq<Seq<u8>>, nv: Seq<Seq<u8>>| #[trigger] table_wf(rows@, ov, nv) && nv.len() == big_n,
    ensures
        forall|ov: Seq<Seq<u8>>, nv: Seq<Seq<u8>>|
            #[trigger] table_wf(rows@, ov, nv) && nv.len() == big_n ==> r == lcs(
                ov,
                nv,
                i as int,
                j as int,
            ),
{
    let big_o = rows.len();
    if i < big_o && j < big_n {
        let r = rows[big_o - 1 - i][j];
        proof {
            assert forall|ov: Seq<Seq<u8>>, nv: Seq<Seq<u8>>|
                #[trigger] table_wf(rows@, ov, nv) && nv.len() == big_n implies r == lcs(
                ov,
                nv,
                i as int,
                j as int,
            ) by {
                assert(rows@[big_o - 1 - i]@.len() == nv.len());
            }
        }
        r
    } else {
        0
    }
}

/// Walks the table from the top left, emitting a common line, a removal or an
/// addition at each step (see [`diff_walk`]).
fn walk(o: &Vec<Vec<u8>>, n: &Vec<Vec<u8>>, rows: &Vec<Vec<usize>>) -> (lines: Vec<DiffLine>)
    requires
        table_wf(rows@, views(o@), views(n@)),
        o@.len() < usize::MAX,
        forall|k: int| 0 <= k < o@.len() ==> valid_utf8(#[trigger] o@[k]@),
        forall|k: int| 0 <= k < n@.len() ==> valid_utf8(#[trigger] n@[k]@),
    ensures
        entries(lines@) == diff_walk(views(o@), views(n@), 0, 0),
        forall|k: int| 0 <= k < lines@.len() ==> valid_utf8((#[trigger] lines@[k]).text@),
        forall|k: int| 0 <= k < lines@.len() ==> (#[trigger] lines@[k]).kind == 32 || lines@[k].kind
            == 45 || lines@[k].kind == 43,
{
    let ghost ov = views(o@);
    let ghost nv = views(n@);
    let big_o = o.len();
    let big_n = n.len();
    let mut lines: Vec<DiffLine> = Vec::new();
    let mut old: usize = 0;
    let mut new: usize = 0;
    while old < big_o || new < big_n
        invariant
            ov == views(o@),
            nv == views(n@),
            big_o == o@.len() == ov.len(),
            big_n == n@.len() == nv.len(),
            big_o < usize::MAX,
            table_wf(rows@, ov, nv),
            old <= big_o,
            new <= big_n,
            forall|k: int| 0 <= k < o@.len() ==> valid_utf8(#[trigger] o@[k]@),
            forall|k: int| 0 <= k < n@.len() ==> valid_utf8(#[trigger] n@[k]@),
            entries(lines@) + diff_walk(ov, nv, old as int, new as int) == diff_walk(ov, nv, 0, 0),
            forall|k: int| 0 <= k < lines@.len() ==> valid_utf8((#[trigger] lines@[k]).text@),
            forall|k: int| 0 <= k < lines@.len() ==> (#[trigger] lines@[k]).kind == 32
                || lines@[k].kind == 45 || lines@[k].kind == 43,
        decreases big_o - old + big_n - new,
    {
        let ghost before = lines@;
        let line = if old < big_o && new < big_n && bytes_equal(&o[old], &n[new]) {
            let l = DiffLine::same(copy_bytes(&o[old]), old + 1);
            old = old + 1;
            new = new + 1;
            l
        } else if new == big_n || (old < big_o && table_at(rows, big_n, old + 1, new) >= table_at(
            rows,
            big_n,
            old,
            new + 1,
        )) {
            let l = DiffLine::removed(copy_bytes(&o[old]), old + 1);
            old = old + 1;
            l
        } else {
            let l = DiffLine::added(copy_bytes(&n[new]), old + 1);
            new = new + 1;
            l
        };
        lines.push(line);
        proof {
            assert(entries(lines@) =~= entries(before).push(line.view()));
            assert forall|k: int| 0 <= k < lines@.len() implies valid_utf8(
                (#[trigger] lines@[k]).text@,
            ) && (lines@[k].kind == 32 || lines@[k].kind == 45 || lines@[k].kind == 43) by {
                if k < before.len() {
                    assert(lines@[k] == before[k]);
                }
            }
        }
    }
    proof {
        assert(entries(lines@) + Seq::<Entry>::empty() =~= entries(lines@));
    }
    lines
}

spec fn ints(c: Seq<usize>) -> Seq<int> {
    c.map_values(|x: usize| x as int)
}

/// Indices of the lines that are not common (see [`changed_from`]).
fn changed_indices(lines: &Vec<DiffLine>) -> (c: Vec<usize>)
    ensures
        ints(c@) == changed_from(entries(lines@), 0),
        forall|k: int| 0 <= k < c@.len() ==> #[trigger] c@[k] < lines@.len(),
        forall|k1: int, k2: int| 0 <= k1 < k2 < c@.len() ==> c@[k1] < c@[k2],
{
    let ghost es = entries(lines@);
    let mut c: Vec<usize> = Vec::new();
    let mut k: usize = 0;
    while k < lines.len()
        invariant
            es == entries(lines@),
            k <= lines@.len(),
            ints(c@) + changed_from(es, k as int) == changed_from(es, 0),
            forall|i: int| 0 <= i < c@.len() ==> #[trigger] c@[i] < k,
            forall|k1: int, k2: int| 0 <= k1 < k2 < c@.len() ==> c@[k1] < c@[k2],
        decreases lines@.len() - k,
    {
        let ghost before = c@;
        if lines[k].kind != 32 {
            c.push(k);
            proof {
                assert(ints(c@) =~= ints(before).push(k as int));
            }
        }
        proof {
            assert(es[k as int].kind == lines@[k as int].kind);
            if lines@[k as int].kind != 32 {
                assert(changed_from(es, k as int) =~= seq![k as int] + changed_from(es, k + 1));
            } else {
                assert(changed_from(es, k as int) =~= Seq::<int>::empty() + changed_from(es, k + 1));
            }
            assert forall|i: int| 0 <= i < c@.len() implies #[trigger] c@[i] < k + 1 by {
                if i < before.len() {
                    assert(c@[i] == before[i]);
                }
            }
        }
        k = k + 1;
    }
    proof {
        assert(ints(c@) + Seq::<int>::empty() =~= ints(c@));
    }
    c
}

/// Appends the decimal notation of `n` in ASCII.
fn push_decimal_bytes(out: &mut Vec<u8>, n: usize)
    ensures
        final(out)@ == old(out)@ + decimal_bytes(n as nat),
        all_ascii(decimal_bytes(n as nat)),
    decreases n,
{
    if n >= 10 {
        push_decimal_bytes(out, n / 10);
    }
    let d = (48 + n % 10) as u8;
    out.push(d);
    proof {
        let m = n as nat;
        if m >= 10 {
            assert(decimal_bytes(m) == decimal_bytes(m / 10).push((48 + m % 10) as u8));
            assert forall|i: int| 0 <= i < decimal_bytes(m).len() implies #[trigger] decimal_bytes(
                m,
            )[i] < 128 by {
                if i < decimal_bytes(m / 10).len() {
                    assert(decimal_bytes(m)[i] == decimal_bytes(m / 10)[i]);
                }
            }
        }
    }
}

/// Appends valid UTF-8 to valid UTF-8.
fn push_valid(out: &mut Vec<u8>, b: &[u8])
    requires
        valid_utf8(old(out)@),
        valid_utf8(b@),
    ensures
        final(out)@ == old(out)@ + b@,
        valid_utf8(final(out)@),
{
    let ghost before = out@;
    push_all(out, b);
    proof {
        valid_utf8_concat(before, b@);
    }
}

/// Appends one ASCII byte to valid UTF-8.
fn push_ascii(out: &mut Vec<u8>, c: u8)
    requires
        valid_utf8(old(out)@),
        c < 128,
    ensures
        final(out)@ == old(out)@.push(c),
        valid_utf8(final(out)@),
{
    let ghost before = out@;
    out.push(c);
    proof {
        assert(all_ascii(seq![c]));
        lemma_ascii_valid(seq![c]);
        assert(out@ =~= before + seq![c]);
        valid_utf8_concat(before, seq![c]);
    }
}

fn push_header(out: &mut Vec<u8>, prefix: &[u8], path: &[u8], line_no: usize)
    requires
        valid_utf8(old(out)@),
        valid_utf8(prefix@),
        valid_utf8(path@),
        prefix@ == encode_utf8("Diff in "@),
    ensures
        final(out)@ == old(out)@ + header(path@, line_no as nat),
        valid_utf8(final(out)@),
{
    let ghost base = out@;
    push_valid(out, prefix);
    push_valid(out, path);
    push_ascii(out, 58);
    let ghost before_num = out@;
    push_decimal_bytes(out, line_no);
    proof {
        lemma_ascii_valid(decimal_bytes(line_no as nat));
        valid_utf8_concat(before_num, decimal_bytes(line_no as nat));
    }
    push_ascii(out, 58);
    push_ascii(out, 10);
    assert(out@ =~= base + header(path@, line_no as nat));
}

fn push_lines(out: &mut Vec<u8>, lines: &Vec<DiffLine>, start: usize, end: usize)
    requires
        valid_utf8(old(out)@),
        start <= end <= lines@.len(),
        forall|i: int| 0 <= i < lines@.len() ==> valid_utf8((#[trigger] lines@[i]).text@),
        forall|i: int| 0 <= i < lines@.len() ==> (#[trigger] lines@[i]).kind == 32 || lines@[i].kind
            == 45 || lines@[i].kind == 43,
    ensures
        final(out)@ == old(out)@ + render_range(entries(lines@), start as int, end as int),
        valid_utf8(final(out)@),
{
    let ghost es = entries(lines@);
    let ghost base = out@;
    let mut k = start;
    while k < end
        invariant
            es == entries(lines@),
            start <= k <= end <= lines@.len(),
            forall|i: int| 0 <= i < lines@.len() ==> valid_utf8((#[trigger] lines@[i]).text@),
            forall|i: int| 0 <= i < lines@.len() ==> (#[trigger] lines@[i]).kind == 32
                || lines@[i].kind == 45 || lines@[i].kind == 43,
            out@ + render_range(es, k as int, end as int) == base + render_range(
                es,
                start as int,
                end as int,
            ),
            valid_utf8(out@),
        decreases end - k,
    {
        let ghost before = out@;
        let line = &lines[k];
        assert(es[k as int] == line.view());
        push_ascii(out, line.kind);
        push_valid(out, line.text.as_slice());
        let t = line.text.len();
        if !(t > 0 && line.text[t - 1] == 10) {
            push_ascii(out, 10);
        }
        proof {
            assert(out@ =~= before + render_line(es[k as int]));
        }
        k = k + 1;
    }
    assert(render_range(es, end as int, end as int) =~= Seq::<u8>::empty());
    assert(out@ =~= base + render_range(es, start as int, end as int));
}

/// Renders the diff of `source` against `formatted` the way rustfmt's
/// `--check` does: `Diff in <path>:<line>:` before each group of changes,
/// then the lines of the group with three lines of context, marked ` `, `-`
/// or `+`.
pub fn diff_text(path: &str, source: &str, formatted: &str) -> (r: String)
    requires
        source.spec_bytes().len() < usize::MAX,
    ensures
        encode_utf8(r@) == diff_spec(path.spec_bytes(), source.spec_bytes(), formatted.spec_bytes()),
{
    let old_lines = split_lines(source);
    let new_lines = split_lines(formatted);
    proof {
        lemma_line_pieces_len(source.spec_bytes(), 0);
    }
    let rows = lcs_table(&old_lines, &new_lines);
    let lines = walk(&old_lines, &new_lines, &rows);
    let changed = changed_indices(&lines);
    let ghost pb = path.spec_bytes();
    let ghost es = entries(lines@);
    let ghost c = ints(changed@);
    let pbytes = path.as_bytes();
    let prefix = "Diff in ".as_bytes();
    let mut out: Vec<u8> = Vec::new();
    let mut gs: usize = 0;
    proof {
        assert(valid_utf8(out@)) by {
            assert(out@ =~= Seq::<u8>::empty());
        }
        encode_utf8_valid_utf8(path@);
        encode_utf8_valid_utf8("Diff in "@);
    }
    while gs < changed.len()
        invariant
            pb == path.spec_bytes(),
            pb == pbytes@,
            valid_utf8(pbytes@),
            prefix@ == encode_utf8("Diff in "@),
            valid_utf8(prefix@),
            es == entries(lines@),
            c == ints(changed@),
            c == changed_from(es, 0),
            forall|k: int| 0 <= k < changed@.len() ==> #[trigger] changed@[k] < lines@.len(),
            forall|k1: int, k2: int| 0 <= k1 < k2 < changed@.len() ==> changed@[k1] < changed@[k2],
            forall|k: int| 0 <= k < lines@.len() ==> valid_utf8((#[trigger] lines@[k]).text@),
            forall|k: int| 0 <= k < lines@.len() ==> (#[trigger] lines@[k]).kind == 32
                || lines@[k].kind == 45 || lines@[k].kind == 43,
            gs <= changed@.len(),
            out@ + render_groups(pb, es, c, gs as int) == render_groups(pb, es, c, 0),
            valid_utf8(out@),
        decreases changed@.len() - gs,
    {
        let first = changed[gs];
        let mut ge = gs + 1;
        while ge < changed.len() && changed[ge] - changed[ge - 1] <= 6
            invariant
                c == ints(changed@),
                forall|k1: int, k2: int| 0 <= k1 < k2 < changed@.len() ==> changed@[k1] < changed@[k2],
                gs < ge <= changed@.len(),
                group_end(c, ge as int) == group_end(c, gs + 1),
            decreases changed@.len() - ge,
        {
            ge = ge + 1;
        }
        proof {
            lemma_group_end_bounds(c, ge as int);
        }
        let start = if first >= 3 {
            first - 3
        } else {
            0
        };
        let last = changed[ge - 1];
        let end = if lines.len() - last >= 4 {
            last + 4
        } else {
            lines.len()
        };
        let line_no = if lines[first].old_line >= 1 {
            lines[first].old_line
        } else {
            1
        };
        let ghost base = out@;
        push_header(&mut out, prefix, pbytes, line_no);
        push_lines(&mut out, &lines, start, end);
        proof {
            assert(es[first as int].old_line == lines@[first as int].old_line);
            assert(render_groups(pb, es, c, gs as int) == header(pb, line_no as nat) + render_range(
                es,
                start as int,
                end as int,
            ) + render_groups(pb, es, c, ge as int));
            assert(out@ == base + header(pb, line_no as nat) + render_range(
                es,
                start as int,
                end as int,
            ));
        }
        gs = ge;
    }
    string_from_valid(out)
}

} // verus!
