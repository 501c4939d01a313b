//! Command-line decisions: reading the arguments, choosing the files to format,
//! and what to do with each file and at the end of a run.
use vstd::prelude::*;
use vstd::string::*;
use vstd::utf8::*;

use crate::errors::CliError;
use crate::formatter::str_equal;

verus! {

broadcast use vstd::utf8::group_utf8_lib;

// ---------------------------------------------------------------------------
// Paths (as bytes; `/` separates components)
// ---------------------------------------------------------------------------
/// The components of `p[a..e]` split at `/`, with empty and `.` components dropped.
pub open spec fn path_components(p: Seq<u8>, a: int, e: int) -> Seq<Seq<u8>>
    decreases e - a,
{
    if a >= e {
        Seq::empty()
    } else {
        proof {
            lemma_component_end_bounds(p, a, e);
        }
        let s = component_end(p, a, e);
        let c = p.subrange(a, s);
        let rest = if s < e {
            path_components(p, s + 1, e)
        } else {
            Seq::empty()
        };
        if c.len() == 0 || c == seq![46u8] {
            rest
        } else {
            seq![c] + rest
        }
    }
}

/// End of the component that starts at `a`: the next `/`, or `e`.
pub open spec fn component_end(p: Seq<u8>, a: int, e: int) -> int
    decreases e - a,
{
    if a >= e || p[a] == 47 {
        a
    } else {
        component_end(p, a + 1, e)
    }
}

/// A relative path that starts with the current directory: `.` alone or
/// followed by `/`.
pub open spec fn starts_at_cur_dir(p: Seq<u8>) -> bool {
    p.len() > 0 && p[0] == 46 && (p.len() == 1 || p[1] == 47)
}

/// The components of a path, as `Path::components` gives them: whether it
/// starts at the root, and its names, led by `.` when a relative path starts
/// with the current directory.
pub open spec fn components(p: Seq<u8>) -> (bool, Seq<Seq<u8>>) {
    (
        p.len() > 0 && p[0] == 47,
        (if starts_at_cur_dir(p) {
            seq![seq![46u8]]
        } else {
            Seq::empty()
        }) + path_components(p, 0, p.len() as int),
    )
}

/// `Path::file_name`: the last component, unless it is `..` or there is none.
pub open spec fn file_name(p: Seq<u8>) -> Option<Seq<u8>> {
    let cs = path_components(p, 0, p.len() as int);
    if cs.len() == 0 || cs.last() == seq![46u8, 46u8] {
        None
    } else {
        Some(cs.last())
    }
}

/// Position of the last `.` in `n[..e]`, or -1.
pub open spec fn last_dot(n: Seq<u8>, e: int) -> int
    decreases e,
{
    if e <= 0 {
        -1
    } else if n[e - 1] == 46 {
        e - 1
    } else {
        last_dot(n, e - 1)
    }
}

/// `Path::extension`: what follows the last `.` of the file name, when that
/// dot is not its first character.
pub open spec fn extension(p: Seq<u8>) -> Option<Seq<u8>> {
    match file_name(p) {
        None => None,
        Some(n) => {
            let d = last_dot(n, n.len() as int);
            if d <= 0 {
                None
            } else {
                Some(n.subrange(d + 1, n.len() as int))
            }
        },
    }
}

/// `path` names a Rust source file.
pub open spec fn rust_file(p: Seq<u8>) -> bool {
    extension(p) == Some(seq![114u8, 115u8])
}

/// Directories that are never walked: `.git` and `target`.
pub open spec fn skipped_dir(p: Seq<u8>) -> bool {
    file_name(p) == Some(seq![46u8, 103u8, 105u8, 116u8]) || file_name(p) == Some(
        seq![116u8, 97u8, 114u8, 103u8, 101u8, 116u8],
    )
}

/// The components of `base.join(p)`: those of `p` when it is absolute or
/// `base` is empty, else those of `p` below `base` (where a `.` inside a path
/// names nothing).
pub open spec fn joined_components(base: Seq<u8>, p: Seq<u8>) -> (bool, Seq<Seq<u8>>) {
    if (p.len() > 0 && p[0] == 47) || base.len() == 0 {
        components(p)
    } else {
        (components(base).0, components(base).1 + path_components(p, 0, p.len() as int))
    }
}

/// Whether the component list `a` begins with the component list `base`
/// (`Path::starts_with`, which includes equality).
pub open spec fn starts_with_components(a: (bool, Seq<Seq<u8>>), base: (bool, Seq<Seq<u8>>)) -> bool {
    a.0 == base.0 && base.1.len() <= a.1.len() && a.1.subrange(0, base.1.len() as int) == base.1
}

/// An absolute path lies at or below one of the ignored paths, relative ones
/// being taken from the project root.
pub open spec fn ignored_by(absolute: Seq<u8>, root: Seq<u8>, ignores: Seq<Seq<u8>>) -> bool {
    exists|k: int|
        0 <= k < ignores.len() && #[trigger] starts_with_components(
            components(absolute),
            joined_components(root, ignores[k]),
        )
}

pub proof fn lemma_component_end_bounds(p: Seq<u8>, a: int, e: int)
    ensures
        a <= e ==> a <= component_end(p, a, e) <= e,
    decreases e - a,
{
    if a < e && p[a] != 47 {
        lemma_component_end_bounds(p, a + 1, e);
    }
}

proof fn lemma_component_end(p: Seq<u8>, a: int, e: int)
    requires
        0 <= a <= e <= p.len(),
    ensures
        a <= component_end(p, a, e) <= e,
        component_end(p, a, e) < e ==> p[component_end(p, a, e)] == 47,
        forall|k: int| a <= k < component_end(p, a, e) ==> p[k] != 47,
    decreases e - a,
{
    if a < e && p[a] != 47 {
        lemma_component_end(p, a + 1, e);
    }
}

/// Byte-wise equality of `p[a..e]` and `w`.
fn range_is(p: &[u8], a: usize, e: usize, w: &[u8]) -> (r: bool)
    requires
        a <= e <= p@.len(),
    ensures
        r == (p@.subrange(a as int, e as int) == w@),
{
    if e - a != w.len() {
        assert(p@.subrange(a as int, e as int).len() != w@.len());
        return false;
    }
    let mut i: usize = 0;
    while i < w.len()
        invariant
            a <= e <= p@.len(),
            e - a == w@.len(),
            i <= w@.len(),
            forall|k: int| 0 <= k < i ==> p@[a + k] == w@[k],
        decreases w@.len() - i,
    {
        if p[a + i] != w[i] {
            assert(p@.subrange(a as int, e as int)[i as int] != w@[i as int]);
            return false;
        }
        i = i + 1;
    }
    assert(p@.subrange(a as int, e as int) =~= w@);
    true
}

/// The components of `p` as byte ranges.
fn component_ranges(p: &[u8]) -> (r: Vec<(usize, usize)>)
    ensures
        forall|k: int| 0 <= k < r@.len() ==> #[trigger] r@[k].0 <= r@[k].1 <= p@.len(),
        r@.map_values(|x: (usize, usize)| p@.subrange(x.0 as int, x.1 as int)) == path_components(
            p@,
            0,
            p@.len() as int,
        ),
{
    let n = p.len();
    let mut r: Vec<(usize, usize)> = Vec::new();
    let mut a: usize = 0;
    let ghost full = path_components(p@, 0, n as int);
    while a < n
        invariant
            n == p@.len(),
            a <= n,
            forall|k: int| 0 <= k < r@.len() ==> #[trigger] r@[k].0 <= r@[k].1 <= p@.len(),
            r@.map_values(|x: (usize, usize)| p@.subrange(x.0 as int, x.1 as int)) + path_components(
                p@,
                a as int,
                n as int,
            ) == full,
        decreases n - a,
    {
        let mut s = a;
        while s < n && p[s] != 47
            invariant
                a <= s <= n == p@.len(),
                component_end(p@, s as int, n as int) == component_end(p@, a as int, n as int),
            decreases n - s,
        {
            s = s + 1;
        }
        proof {
            lemma_component_end(p@, a as int, n as int);
        }
        let ghost before = r@;
        let keep = !(s == a || (s - a == 1 && p[a] == 46));
        proof {
            let c = p@.subrange(a as int, s as int);
            if s - a == 1 {
                assert(c == seq![46u8] <==> p@[a as int] == 46) by {
                    assert(c[0] == p@[a as int]);
                    if p@[a as int] == 46 {
                        assert(c =~= seq![46u8]);
                    }
                }
            }
            assert(c.len() == 0 <==> s == a);
            if s - a != 1 {
                assert(c != seq![46u8]) by {
                    assert(c.len() != 1);
                }
            }
        }
        if keep {
            r.push((a, s));
        }
        proof {
            let f = |x: (usize, usize)| p@.subrange(x.0 as int, x.1 as int);
            if keep {
                assert(r@.map_values(f) =~= before.map_values(f).push(
                    p@.subrange(a as int, s as int),
                ));
            } else {
                assert(r@.map_values(f) =~= before.map_values(f));
            }
            assert forall|k: int| 0 <= k < r@.len() implies #[trigger] r@[k].0 <= r@[k].1
                <= p@.len() by {
                if k < before.len() {
                    assert(r@[k] == before[k]);
                }
            }
        }
        if s < n {
            a = s + 1;
        } else {
            a = n;
        }
    }
    proof {
        let f = |x: (usize, usize)| p@.subrange(x.0 as int, x.1 as int);
        assert(r@.map_values(f) + path_components(p@, n as int, n as int) =~= r@.map_values(f));
    }
    r
}

/// `Path::file_name` as a byte range of `p`.
fn file_name_range(p: &[u8]) -> (r: Option<(usize, usize)>)
    ensures
        match r {
            Some((a, e)) => a <= e <= p@.len() && file_name(p@) == Some(
                p@.subrange(a as int, e as int),
            ),
            None => file_name(p@) is None,
        },
{
    let cs = component_ranges(p);
    let ghost f = |x: (usize, usize)| p@.subrange(x.0 as int, x.1 as int);
    if cs.len() == 0 {
        return None;
    }
    let (a, e) = cs[cs.len() - 1];
    proof {
        assert(cs@.map_values(f).last() == p@.subrange(a as int, e as int));
    }
    if range_is(p, a, e, "..".as_bytes()) {
        proof {
            reveal_strlit("..");
            assert("..".spec_bytes() =~= seq![46u8, 46u8]) by {
                assert(is_ascii_chars(".."@));
            }
        }
        return None;
    }
    proof {
        reveal_strlit("..");
        assert("..".spec_bytes() =~= seq![46u8, 46u8]) by {
            assert(is_ascii_chars(".."@));
        }
    }
    Some((a, e))
}

/// Whether the path names a Rust source file: its extension is `rs`.
pub fn is_rust_file(path: &str) -> (r: bool)
    ensures
        r == rust_file(path.spec_bytes()),
{
    let p = path.as_bytes();
    match file_name_range(p) {
        None => false,
        Some((a, e)) => {
            let ghost name = p@.subrange(a as int, e as int);
            let mut d = e;
            while d > a && p[d - 1] != 46
                invariant
                    a <= d <= e <= p@.len(),
                    name == p@.subrange(a as int, e as int),
                    last_dot(name, (d - a) as int) == last_dot(name, (e - a) as int),
                decreases d,
            {
                assert(name[d - a - 1] == p@[d - 1]);
                d = d - 1;
            }
            if d > a {
                assert(name[d - a - 1] == p@[d - 1]);
            }
            // `d - 1` is the last dot; the extension exists when it is not the first byte.
            if d - a <= 1 {
                return false;
            }
            let r = range_is(p, d, e, "rs".as_bytes());
            proof {
                reveal_strlit("rs");
                assert("rs".spec_bytes() =~= seq![114u8, 115u8]) by {
                    assert(is_ascii_chars("rs"@));
                }
                assert(name.subrange(d - a, name.len() as int) =~= p@.subrange(d as int, e as int));
            }
            r
        },
    }
}

/// Whether a directory is never walked: `.git` or `target`.
pub fn should_skip(path: &str) -> (r: bool)
    ensures
        r == skipped_dir(path.spec_bytes()),
{
    let p = path.as_bytes();
    proof {
        reveal_strlit(".git");
        reveal_strlit("target");
        assert(".git".spec_bytes() =~= seq![46u8, 103u8, 105u8, 116u8]) by {
            assert(is_ascii_chars(".git"@));
        }
        assert("target".spec_bytes() =~= seq![116u8, 97u8, 114u8, 103u8, 101u8, 116u8]) by {
            assert(is_ascii_chars("target"@));
        }
    }
    match file_name_range(p) {
        None => false,
        Some((a, e)) => range_is(p, a, e, ".git".as_bytes()) || range_is(
            p,
            a,
            e,
            "target".as_bytes(),
        ),
    }
}

pub open spec fn byte_views(s: Seq<String>) -> Seq<Seq<u8>> {
    s.map_values(|x: String| encode_utf8(x@))
}

pub open spec fn vec_views(s: Seq<Vec<u8>>) -> Seq<Seq<u8>> {
    s.map_values(|x: Vec<u8>| x@)
}

/// The components of a path (see [`components`]), copied out.
fn components_of(p: &[u8]) -> (r: (bool, Vec<Vec<u8>>))
    ensures
        (r.0, vec_views(r.1@)) == components(p@),
{
    let ranges = component_ranges(p);
    let ghost f = |x: (usize, usize)| p@.subrange(x.0 as int, x.1 as int);
    let mut out: Vec<Vec<u8>> = Vec::new();
    let mut k: usize = 0;
    while k < ranges.len()
        invariant
            k <= ranges@.len(),
            forall|i: int| 0 <= i < ranges@.len() ==> #[trigger] ranges@[i].0 <= ranges@[i].1 <= p@.len(),
            out@.len() == k,
            forall|i: int|
                0 <= i < k ==> (#[trigger] out@[i])@ == p@.subrange(
                    ranges@[i].0 as int,
                    ranges@[i].1 as int,
                ),
        decreases ranges@.len() - k,
    {
        let (a, e) = ranges[k];
        let mut c: Vec<u8> = Vec::new();
        crate::text::push_range(&mut c, p, a, e);
        assert(c@ =~= p@.subrange(a as int, e as int));
        let ghost before = out@;
        out.push(c);
        proof {
            assert forall|i: int| 0 <= i < k + 1 implies (#[trigger] out@[i])@ == p@.subrange(
                ranges@[i].0 as int,
                ranges@[i].1 as int,
            ) by {
                if i < k {
                    assert(out@[i] == before[i]);
                }
            }
        }
        k = k + 1;
    }
    proof {
        assert(vec_views(out@) =~= ranges@.map_values(f));
    }
    let cur = p.len() > 0 && p[0] == 46 && (p.len() == 1 || p[1] == 47);
    if cur {
        let mut dot: Vec<u8> = Vec::new();
        dot.push(46);
        let ghost before = vec_views(out@);
        out.insert(0, dot);
        proof {
            assert(vec_views(out@) =~= seq![seq![46u8]] + before) by {
                assert(dot@ =~= seq![46u8]);
            }
        }
    } else {
        assert(vec_views(out@) =~= Seq::<Seq<u8>>::empty() + vec_views(out@));
    }
    (p.len() > 0 && p[0] == 47, out)
}

/// The components of `p` without the leading `.` of a relative path.
fn names_of(p: &[u8]) -> (r: Vec<Vec<u8>>)
    ensures
        vec_views(r@) == path_components(p@, 0, p@.len() as int),
{
    let (_, mut all) = components_of(p);
    if p.len() > 0 && p[0] == 46 && (p.len() == 1 || p[1] == 47) {
        let ghost before = vec_views(all@);
        assert(before.len() == all@.len());
        assert(before.len() > 0);
        all.remove(0);
        proof {
            assert(vec_views(all@) =~= before.drop_first());
            assert(before =~= seq![seq![46u8]] + path_components(p@, 0, p@.len() as int));
        }
    } else {
        assert(vec_views(all@) =~= path_components(p@, 0, p@.len() as int));
    }
    all
}

fn vec_bytes_equal(a: &Vec<u8>, b: &Vec<u8>) -> (r: bool)
    ensures
        r == (a@ == b@),
{
    if a.len() != b.len() {
        return false;
    }
    let mut i: usize = 0;
    while i < a.len()
        invariant
            a@.len() == b@.len(),
            i <= a@.len(),
            forall|k: int| 0 <= k < i ==> a@[k] == b@[k],
        decreases a@.len() - i,
    {
        if a[i] != b[i] {
            return false;
        }
        i = i + 1;
    }
    assert(a@ =~= b@);
    true
}

/// Whether the components `a` begin with the components `base`.
fn starts_with_all(a: &(bool, Vec<Vec<u8>>), base_root: bool, base: &Vec<Vec<u8>>) -> (r: bool)
    ensures
        r == starts_with_components((a.0, vec_views(a.1@)), (base_root, vec_views(base@))),
{
    if a.0 != base_root || base.len() > a.1.len() {
        return false;
    }
    let mut i: usize = 0;
    while i < base.len()
        invariant
            base@.len() <= a.1@.len(),
            i <= base@.len(),
            forall|k: int| 0 <= k < i ==> a.1@[k]@ == base@[k]@,
        decreases base@.len() - i,
    {
        if !vec_bytes_equal(&a.1[i], &base[i]) {
            proof {
                assert(vec_views(a.1@).subrange(0, base@.len() as int)[i as int] != vec_views(
                    base@,
                )[i as int]);
            }
            return false;
        }
        i = i + 1;
    }
    assert(vec_views(a.1@).subrange(0, base@.len() as int) =~= vec_views(base@));
    true
}

/// Whether `absolute` lies at or below one of `ignores`; ignored paths that
/// are relative are taken from `project_root`.
pub fn is_ignored(absolute: &str, project_root: &str, ignores: &[String]) -> (r: bool)
    ensures
        r == ignored_by(absolute.spec_bytes(), project_root.spec_bytes(), byte_views(ignores@)),
{
    let target = components_of(absolute.as_bytes());
    let root = components_of(project_root.as_bytes());
    let ghost iv = byte_views(ignores@);
    let mut k: usize = 0;
    while k < ignores.len()
        invariant
            k <= ignores@.len(),
            iv == byte_views(ignores@),
            (target.0, vec_views(target.1@)) == components(absolute.spec_bytes()),
            (root.0, vec_views(root.1@)) == components(project_root.spec_bytes()),
            forall|i: int|
                0 <= i < k ==> !#[trigger] starts_with_components(
                    components(absolute.spec_bytes()),
                    joined_components(project_root.spec_bytes(), iv[i]),
                ),
        decreases ignores@.len() - k,
    {
        let ib = ignores[k].as_str().as_bytes();
        let own = components_of(ib);
        assert(iv[k as int] == ib@);
        let hit = if (ib.len() > 0 && ib[0] == 47) || project_root.as_bytes().len() == 0 {
            let h = starts_with_all(&target, own.0, &own.1);
            assert(joined_components(project_root.spec_bytes(), iv[k as int]) == (
            own.0,
            vec_views(own.1@),
            ));
            h
        } else {
            let mut joined: Vec<Vec<u8>> = Vec::new();
            let mut i: usize = 0;
            while i < root.1.len()
                invariant
                    i <= root.1@.len(),
                    vec_views(joined@) == vec_views(root.1@).take(i as int),
                decreases root.1@.len() - i,
            {
                let c = copy_vec(&root.1[i]);
                let ghost before = joined@;
                joined.push(c);
                proof {
                    assert(vec_views(joined@) =~= vec_views(before).push(c@));
                    assert(vec_views(root.1@).take(i + 1) =~= vec_views(root.1@).take(i as int).push(
                        root.1@[i as int]@,
                    ));
                }
                i = i + 1;
            }
            let names = names_of(ib);
            let mut j: usize = 0;
            proof {
                assert(vec_views(root.1@).take(root.1@.len() as int) =~= vec_views(root.1@));
            }
            while j < names.len()
                invariant
                    j <= names@.len(),
                    vec_views(joined@) == vec_views(root.1@) + vec_views(names@).take(j as int),
                decreases names@.len() - j,
            {
                let c = copy_vec(&names[j]);
                let ghost before = joined@;
                joined.push(c);
                proof {
                    assert(vec_views(joined@) =~= vec_views(before).push(c@));
                    assert(vec_views(names@).take(j + 1) =~= vec_views(names@).take(j as int).push(
                        names@[j as int]@,
                    ));
                }
                j = j + 1;
            }
            proof {
                assert(vec_views(names@).take(names@.len() as int) =~= vec_views(names@));
            }
            assert(joined_components(project_root.spec_bytes(), iv[k as int]) == (
            root.0,
            vec_views(joined@),
            ));
            starts_with_all(&target, root.0, &joined)
        };
        assert(hit == starts_with_components(
            components(absolute.spec_bytes()),
            joined_components(project_root.spec_bytes(), iv[k as int]),
        ));
        if hit {
            return true;
        }
        k = k + 1;
    }
    false
}

fn copy_vec(v: &Vec<u8>) -> (r: Vec<u8>)
    ensures
        r@ == v@,
{
    let mut r: Vec<u8> = Vec::new();
    crate::text::push_all(&mut r, v.as_slice());
    r
}

// ---------------------------------------------------------------------------
// Ordering paths
// ---------------------------------------------------------------------------
/// A component of a path as `Path` orders them: the root, the current
/// directory, the parent directory, then names by their bytes.
pub enum PathPart {
    Root,
    Cur,
    Parent,
    Name(Seq<u8>),
}

pub open spec fn part_of(n: Seq<u8>) -> PathPart {
    if n == seq![46u8] {
        PathPart::Cur
    } else if n == seq![46u8, 46u8] {
        PathPart::Parent
    } else {
        PathPart::Name(n)
    }
}

/// The components of a path from the root (`Path::components`).
pub open spec fn path_parts(p: Seq<u8>) -> Seq<PathPart> {
    parts_from(components(p).0, components(p).1)
}

pub open spec fn parts_from(root: bool, names: Seq<Seq<u8>>) -> Seq<PathPart> {
    (if root {
        seq![PathPart::Root]
    } else {
        Seq::empty()
    }) + names.map_values(|n: Seq<u8>| part_of(n))
}

pub open spec fn part_rank(x: PathPart) -> int {
    match x {
        PathPart::Root => 0,
        PathPart::Cur => 1,
        PathPart::Parent => 2,
        PathPart::Name(_) => 3,
    }
}

/// Lexicographic comparison of `a[i..]` and `b[i..]`: -1, 0 or 1.
pub open spec fn bytes_order_from(a: Seq<u8>, b: Seq<u8>, i: int) -> int
    decreases a.len() - i,
{
    if i >= a.len() {
        if i >= b.len() {
            0
        } else {
            -1
        }
    } else if i >= b.len() {
        1
    } else if a[i] < b[i] {
        -1
    } else if a[i] > b[i] {
        1
    } else {
        bytes_order_from(a, b, i + 1)
    }
}

pub open spec fn part_order(x: PathPart, y: PathPart) -> int {
    if part_rank(x) < part_rank(y) {
        -1
    } else if part_rank(x) > part_rank(y) {
        1
    } else {
        match (x, y) {
            (PathPart::Name(a), PathPart::Name(b)) => bytes_order_from(a, b, 0),
            _ => 0,
        }
    }
}

/// Lexicographic comparison of the components `a[i..]` and `b[i..]`.
pub open spec fn parts_order_from(a: Seq<PathPart>, b: Seq<PathPart>, i: int) -> int
    decreases a.len() - i,
{
    if i >= a.len() {
        if i >= b.len() {
            0
        } else {
            -1
        }
    } else if i >= b.len() {
        1
    } else if part_order(a[i], b[i]) != 0 {
        part_order(a[i], b[i])
    } else {
        parts_order_from(a, b, i + 1)
    }
}

/// `a <= b` in the order of `Path`.
pub open spec fn path_le(a: Seq<u8>, b: Seq<u8>) -> bool {
    parts_order_from(path_parts(a), path_parts(b), 0) <= 0
}

/// `a == b` as `Path`s: the same components.
pub open spec fn same_path(a: Seq<u8>, b: Seq<u8>) -> bool {
    parts_order_from(path_parts(a), path_parts(b), 0) == 0
}

/// Where `x` goes in the ordered `s`: after every path that is not greater.
pub open spec fn path_insert_pos(s: Seq<Seq<u8>>, x: Seq<u8>) -> int
    decreases s.len(),
{
    if s.len() == 0 {
        0
    } else if path_le(s.last(), x) {
        s.len() as int
    } else {
        path_insert_pos(s.drop_last(), x)
    }
}

/// The paths in the order of `Path`; equal paths keep their order (`sort`).
pub open spec fn sort_paths(s: Seq<Seq<u8>>) -> Seq<Seq<u8>>
    decreases s.len(),
{
    if s.len() == 0 {
        s
    } else {
        let r = sort_paths(s.drop_last());
        r.insert(path_insert_pos(r, s.last()), s.last())
    }
}

/// The paths without those equal to the one before (`dedup`).
pub open spec fn dedup_paths(s: Seq<Seq<u8>>) -> Seq<Seq<u8>>
    decreases s.len(),
{
    if s.len() == 0 {
        s
    } else if s.len() >= 2 && same_path(s[s.len() - 2], s.last()) {
        dedup_paths(s.drop_last())
    } else {
        dedup_paths(s.drop_last()).push(s.last())
    }
}

fn name_rank(n: &Vec<u8>) -> (r: u8)
    ensures
        r == part_rank(part_of(n@)),
{
    if n.len() == 1 && n[0] == 46 {
        assert(n@ =~= seq![46u8]);
        1
    } else if n.len() == 2 && n[0] == 46 && n[1] == 46 {
        assert(n@ =~= seq![46u8, 46u8]);
        2
    } else {
        assert(n@ != seq![46u8]) by {
            if n@.len() == 1 {
                assert(n@[0] != 46);
            }
        }
        assert(n@ != seq![46u8, 46u8]) by {
            if n@.len() == 2 {
                assert(n@[0] != 46 || n@[1] != 46);
            }
        }
        3
    }
}

fn bytes_order(a: &Vec<u8>, b: &Vec<u8>) -> (r: i8)
    ensures
        r == bytes_order_from(a@, b@, 0),
{
    let mut i: usize = 0;
    while i < a.len() && i < b.len()
        invariant
            i <= a@.len(),
            i <= b@.len(),
            bytes_order_from(a@, b@, i as int) == bytes_order_from(a@, b@, 0),
        decreases a@.len() - i,
    {
        if a[i] < b[i] {
            return -1;
        }
        if a[i] > b[i] {
            return 1;
        }
        i = i + 1;
    }
    if i >= a.len() {
        if i >= b.len() {
            0
        } else {
            -1
        }
    } else {
        1
    }
}

/// The components of a path, each as its rank and, for a name, its bytes.
fn parts_of(p: &[u8]) -> (r: Vec<(u8, Vec<u8>)>)
    ensures
        r@.len() == path_parts(p@).len(),
        forall|i: int|
            0 <= i < r@.len() ==> (#[trigger] r@[i]).0 == part_rank(path_parts(p@)[i]) && (r@[i].0
                == 3 ==> path_parts(p@)[i] == PathPart::Name(r@[i].1@)),
{
    let c = components_of(p);
    let ghost pp = path_parts(p@);
    let mut r: Vec<(u8, Vec<u8>)> = Vec::new();
    let off: usize = if c.0 {
        r.push((0, Vec::new()));
        1
    } else {
        0
    };
    let mut k: usize = 0;
    while k < c.1.len()
        invariant
            pp == parts_from(c.0, vec_views(c.1@)),
            off == (if c.0 {
                1int
            } else {
                0int
            }),
            k <= c.1@.len(),
            r@.len() == k + off,
            forall|i: int|
                0 <= i < r@.len() ==> (#[trigger] r@[i]).0 == part_rank(pp[i]) && (r@[i].0 == 3
                    ==> pp[i] == PathPart::Name(r@[i].1@)),
        decreases c.1@.len() - k,
    {
        let n = copy_vec(&c.1[k]);
        let rank = name_rank(&n);
        assert(pp[k + off] == part_of(c.1@[k as int]@));
        let ghost before = r@;
        r.push((rank, n));
        proof {
            assert forall|i: int|
                0 <= i < r@.len() implies (#[trigger] r@[i]).0 == part_rank(pp[i]) && (r@[i].0 == 3
                    ==> pp[i] == PathPart::Name(r@[i].1@)) by {
                if i < before.len() {
                    assert(r@[i] == before[i]);
                }
            }
        }
        k = k + 1;
    }
    r
}

/// `a <= b` in the order of `Path`.
fn path_le_exec(a: &String, b: &String) -> (r: bool)
    ensures
        r == path_le(encode_utf8(a@), encode_utf8(b@)),
{
    let ab = a.as_str().as_bytes();
    let bb = b.as_str().as_bytes();
    assert(ab@ == encode_utf8(a@));
    assert(bb@ == encode_utf8(b@));
    let pa = parts_of(ab);
    let pb = parts_of(bb);
    let ghost sa = path_parts(ab@);
    let ghost sb = path_parts(bb@);
    let mut i: usize = 0;
    while i < pa.len() && i < pb.len()
        invariant
            pa@.len() == sa.len(),
            pb@.len() == sb.len(),
            forall|j: int|
                0 <= j < pa@.len() ==> (#[trigger] pa@[j]).0 == part_rank(sa[j]) && (pa@[j].0 == 3
                    ==> sa[j] == PathPart::Name(pa@[j].1@)),
            forall|j: int|
                0 <= j < pb@.len() ==> (#[trigger] pb@[j]).0 == part_rank(sb[j]) && (pb@[j].0 == 3
                    ==> sb[j] == PathPart::Name(pb@[j].1@)),
            i <= pa@.len(),
            i <= pb@.len(),
            parts_order_from(sa, sb, i as int) == parts_order_from(sa, sb, 0),
            sa == path_parts(encode_utf8(a@)),
            sb == path_parts(encode_utf8(b@)),
        decreases pa@.len() - i,
    {
        let ra = pa[i].0;
        let rb = pb[i].0;
        assert(ra == part_rank(sa[i as int]) && rb == part_rank(sb[i as int]));
        let c: i8 = if ra < rb {
            -1
        } else if ra > rb {
            1
        } else if ra == 3 {
            bytes_order(&pa[i].1, &pb[i].1)
        } else {
            assert(part_order(sa[i as int], sb[i as int]) == 0) by {
                assert(sa[i as int] !is Name && sb[i as int] !is Name);
            }
            0
        };
        assert(c == part_order(sa[i as int], sb[i as int]));
        if c != 0 {
            assert(parts_order_from(sa, sb, i as int) == c);
            return c < 0;
        }
        i = i + 1;
    }
    i >= pa.len()
}

/// The paths in the order of `Path`, each path that equals the one before it
/// left out, as `sort` then `dedup` leave a list of paths.
pub fn sorted_unique_paths(paths: Vec<String>) -> (r: Vec<String>)
    ensures
        byte_views(r@) == dedup_paths(sort_paths(byte_views(paths@))),
{
    let ghost s = byte_views(paths@);
    let mut sorted: Vec<String> = Vec::new();
    let mut i: usize = 0;
    assert(s.take(0) =~= Seq::<Seq<u8>>::empty());
    while i < paths.len()
        invariant
            i <= paths@.len(),
            s == byte_views(paths@),
            byte_views(sorted@) == sort_paths(s.take(i as int)),
        decreases paths@.len() - i,
    {
        let x = paths[i].clone();
        let ghost sr = byte_views(sorted@);
        let ghost xv = encode_utf8(x@);
        assert(xv == s[i as int]);
        let mut j = sorted.len();
        assert(sr.take(sorted@.len() as int) =~= sr);
        while j > 0 && !path_le_exec(&sorted[j - 1], &x)
            invariant
                j <= sorted@.len(),
                sr == byte_views(sorted@),
                xv == encode_utf8(x@),
                path_insert_pos(sr.take(j as int), xv) == path_insert_pos(sr, xv),
            decreases j,
        {
            assert(sr.take(j as int).drop_last() =~= sr.take(j - 1));
            j = j - 1;
        }
        assert(path_insert_pos(sr.take(j as int), xv) == j) by {
            if j > 0 {
                assert(sr.take(j as int).last() == sr[j - 1]);
            }
        }
        assert(sr.take(sorted@.len() as int) =~= sr);
        sorted.insert(j, x);
        assert(byte_views(sorted@) =~= sr.insert(j as int, xv));
        assert(s.take(i + 1).drop_last() =~= s.take(i as int));
        assert(s.take(i + 1).last() == xv);
        i = i + 1;
    }
    assert(s.take(paths@.len() as int) =~= s);
    let ghost t = byte_views(sorted@);
    let mut out: Vec<String> = Vec::new();
    let mut k: usize = 0;
    assert(t.take(0) =~= Seq::<Seq<u8>>::empty());
    while k < sorted.len()
        invariant
            k <= sorted@.len(),
            t == byte_views(sorted@),
            byte_views(out@) == dedup_paths(t.take(k as int)),
        decreases sorted@.len() - k,
    {
        let ghost tk = t.take(k + 1);
        assert(tk.drop_last() =~= t.take(k as int));
        assert(tk.last() == t[k as int]);
        let keep = if k == 0 {
            true
        } else {
            let le1 = path_le_exec(&sorted[k - 1], &sorted[k]);
            let le2 = path_le_exec(&sorted[k], &sorted[k - 1]);
            assert(tk[tk.len() - 2] == t[k - 1]);
            proof {
                lemma_parts_order_antisym(
                    path_parts(t[k - 1]),
                    path_parts(t[k as int]),
                    0,
                );
            }
            !(le1 && le2)
        };
        if keep {
            let ghost before = byte_views(out@);
            out.push(sorted[k].clone());
            assert(byte_views(out@) =~= before.push(t[k as int]));
        }
        k = k + 1;
    }
    assert(t.take(sorted@.len() as int) =~= t);
    out
}

proof fn lemma_bytes_order_antisym(a: Seq<u8>, b: Seq<u8>, i: int)
    ensures
        bytes_order_from(a, b, i) == -bytes_order_from(b, a, i),
    decreases a.len() - i,
{
    if i < a.len() && i < b.len() && a[i] == b[i] {
        lemma_bytes_order_antisym(a, b, i + 1);
    }
}

proof fn lemma_parts_order_antisym(a: Seq<PathPart>, b: Seq<PathPart>, i: int)
    ensures
        parts_order_from(a, b, i) == -parts_order_from(b, a, i),
    decreases a.len() - i,
{
    if i < a.len() && i < b.len() {
        match (a[i], b[i]) {
            (PathPart::Name(x), PathPart::Name(y)) => {
                lemma_bytes_order_antisym(x, y, 0);
            },
            _ => {},
        }
        if part_order(a[i], b[i]) == 0 {
            lemma_parts_order_antisym(a, b, i + 1);
        }
    }
}

// ---------------------------------------------------------------------------
// Arguments
// ---------------------------------------------------------------------------
/// The options of a formatting run, read from the command line.
#[derive(Debug, PartialEq, Eq)]
pub struct Cli {
    pub paths: Vec<String>,
    pub ignores: Vec<String>,
    pub check: bool,
    pub quiet: bool,
    pub verbose: bool,
    pub files_with_diff: bool,
}

/// The command line as the specifications see it.
pub struct CliView {
    pub paths: Seq<Seq<char>>,
    pub ignores: Seq<Seq<char>>,
    pub check: bool,
    pub quiet: bool,
    pub verbose: bool,
    pub files_with_diff: bool,
}

pub open spec fn char_views(s: Seq<String>) -> Seq<Seq<char>> {
    s.map_values(|x: String| x@)
}

impl Cli {
    pub open spec fn view(&self) -> CliView {
        CliView {
            paths: char_views(self.paths@),
            ignores: char_views(self.ignores@),
            check: self.check,
            quiet: self.quiet,
            verbose: self.verbose,
            files_with_diff: self.files_with_diff,
        }
    }
}

/// Reads the arguments from `i` on; `opts` says whether options are still
/// recognized (they stop at `--`). An argument that starts with `-` and is no
/// known option is refused, and `--ignore` needs a path after it.
pub open spec fn parse_args(args: Seq<Seq<char>>, i: int, opts: bool, acc: CliView) -> Result<CliView, Seq<char>>
    decreases args.len() - i,
{
    if i < 0 || i >= args.len() {
        Ok(acc)
    } else {
        let a = args[i];
        if opts && a == "--"@ {
            parse_args(args, i + 1, false, acc)
        } else if opts && a == "--check"@ {
            parse_args(args, i + 1, opts, CliView { check: true, ..acc })
        } else if opts && (a == "--quiet"@ || a == "-q"@) {
            parse_args(args, i + 1, opts, CliView { quiet: true, ..acc })
        } else if opts && a == "--verbose"@ {
            parse_args(args, i + 1, opts, CliView { verbose: true, ..acc })
        } else if opts && (a == "--files-with-diff"@ || a == "-l"@) {
            parse_args(args, i + 1, opts, CliView { files_with_diff: true, ..acc })
        } else if opts && a == "--ignore"@ {
            if i + 1 >= args.len() {
                Err("--ignore requires a path"@)
            } else {
                parse_args(args, i + 2, opts, CliView { ignores: acc.ignores.push(args[i + 1]), ..acc })
            }
        } else if opts && a.len() > 0 && a[0] == '-' {
            Err("unexpected argument: "@ + a)
        } else {
            parse_args(args, i + 1, opts, CliView { paths: acc.paths.push(a), ..acc })
        }
    }
}

/// The command line with nothing set.
pub open spec fn empty_cli() -> CliView {
    CliView {
        paths: Seq::empty(),
        ignores: Seq::empty(),
        check: false,
        quiet: false,
        verbose: false,
        files_with_diff: false,
    }
}

impl Cli {
    /// Reads a command line; the first argument, the program's name, is passed over.
    pub fn parse_from(args: &[String]) -> (r: Result<Cli, CliError>)
        ensures
            match parse_args(char_views(args@), 1, true, empty_cli()) {
                Ok(v) => r matches Ok(c) && c.view() == v,
                Err(m) => r matches Err(e) && e.message@ == m,
            },
    {
        let ghost av = char_views(args@);
        let mut cli = Cli {
            paths: Vec::new(),
            ignores: Vec::new(),
            check: false,
            quiet: false,
            verbose: false,
            files_with_diff: false,
        };
        let mut options_allowed = true;
        let mut i: usize = 1;
        proof {
            assert(char_views(cli.paths@) =~= Seq::<Seq<char>>::empty());
            assert(char_views(cli.ignores@) =~= Seq::<Seq<char>>::empty());
            assert(cli.view() == empty_cli());
        }
        while i < args.len()
            invariant
                av == char_views(args@),
                1 <= i,
                parse_args(av, i as int, options_allowed, cli.view()) == parse_args(
                    av,
                    1,
                    true,
                    empty_cli(),
                ),
            decreases args@.len() - i,
        {
            let arg = args[i].as_str();
            assert(arg@ == av[i as int]);
            if options_allowed && str_equal(arg, "--") {
                options_allowed = false;
                i = i + 1;
                continue ;
            }
            if options_allowed && str_equal(arg, "--check") {
                cli.check = true;
                i = i + 1;
                continue ;
            }
            if options_allowed && (str_equal(arg, "--quiet") || str_equal(arg, "-q")) {
                cli.quiet = true;
                i = i + 1;
                continue ;
            }
            if options_allowed && str_equal(arg, "--verbose") {
                cli.verbose = true;
                i = i + 1;
                continue ;
            }
            if options_allowed && (str_equal(arg, "--files-with-diff") || str_equal(arg, "-l")) {
                cli.files_with_diff = true;
                i = i + 1;
                continue ;
            }
            if options_allowed && str_equal(arg, "--ignore") {
                if i + 1 >= args.len() {
                    return Err(CliError::new("--ignore requires a path"));
                }
                let ghost before = cli.ignores@;
                cli.ignores.push(args[i + 1].clone());
                proof {
                    assert(char_views(cli.ignores@) =~= char_views(before).push(av[i + 1]));
                }
                i = i + 2;
                continue ;
            }
            if options_allowed && arg.unicode_len() > 0 && arg.get_char(0) == '-' {
                let mut message = "unexpected argument: ".to_owned();
                message.append(arg);
                return Err(CliError { message });
            }
            let ghost before = cli.paths@;
            cli.paths.push(args[i].clone());
            proof {
                assert(char_views(cli.paths@) =~= char_views(before).push(av[i as int]));
            }
            i = i + 1;
        }
        Ok(cli)
    }
}

/// Reading the arguments from `i` on looks at no argument before `i`.
proof fn lemma_parse_args_reads_on(s: Seq<Seq<char>>, t: Seq<Seq<char>>, i: int, opts: bool, acc: CliView)
    requires
        0 <= i,
        s.len() == t.len(),
        forall|k: int| i <= k < s.len() ==> s[k] == t[k],
    ensures
        parse_args(s, i, opts, acc) == parse_args(t, i, opts, acc),
    decreases s.len() - i,
{
    if i < s.len() {
        assert(s[i] == t[i]);
        lemma_parse_args_reads_on(s, t, i + 1, false, acc);
        lemma_parse_args_reads_on(s, t, i + 1, opts, (CliView { check: true, ..acc }));
        lemma_parse_args_reads_on(s, t, i + 1, opts, (CliView { quiet: true, ..acc }));
        lemma_parse_args_reads_on(s, t, i + 1, opts, (CliView { verbose: true, ..acc }));
        lemma_parse_args_reads_on(s, t, i + 1, opts, (CliView { files_with_diff: true, ..acc }));
        lemma_parse_args_reads_on(s, t, i + 1, opts, (CliView { paths: acc.paths.push(s[i]), ..acc }));
        if i + 1 < s.len() {
            assert(s[i + 1] == t[i + 1]);
            lemma_parse_args_reads_on(
                s,
                t,
                i + 2,
                opts,
                (CliView { ignores: acc.ignores.push(s[i + 1]), ..acc }),
            );
        }
    }
}

/// The long and short spellings of an option mean the same: where options are
/// read, `--quiet` and `-q` both turn on `quiet`, and `--files-with-diff` and
/// `-l` both turn on `files_with_diff`; the rest of the command line is then
/// read as it would be anyway, so neither spelling is ever refused.
pub proof fn law_option_spellings_agree(args: Seq<Seq<char>>, i: int, acc: CliView)
    requires
        0 <= i < args.len(),
    ensures
        parse_args(args.update(i, "--quiet"@), i, true, acc) == parse_args(
            args,
            i + 1,
            true,
            (CliView { quiet: true, ..acc }),
        ),
        parse_args(args.update(i, "-q"@), i, true, acc) == parse_args(
            args,
            i + 1,
            true,
            (CliView { quiet: true, ..acc }),
        ),
        parse_args(args.update(i, "--files-with-diff"@), i, true, acc) == parse_args(
            args,
            i + 1,
            true,
            (CliView { files_with_diff: true, ..acc }),
        ),
        parse_args(args.update(i, "-l"@), i, true, acc) == parse_args(
            args,
            i + 1,
            true,
            (CliView { files_with_diff: true, ..acc }),
        ),
{
    reveal_strlit("--");
    reveal_strlit("--check");
    reveal_strlit("--quiet");
    reveal_strlit("-q");
    reveal_strlit("--files-with-diff");
    reveal_strlit("-l");
    reveal_strlit("--verbose");
    let q = CliView { quiet: true, ..acc };
    let l = CliView { files_with_diff: true, ..acc };
    let a1 = args.update(i, "--quiet"@);
    let a2 = args.update(i, "-q"@);
    let a3 = args.update(i, "--files-with-diff"@);
    let a4 = args.update(i, "-l"@);
    assert("--"@.len() == 2 && "--check"@.len() == 7 && "--quiet"@.len() == 7);
    assert("-q"@.len() == 2 && "-l"@.len() == 2 && "--verbose"@.len() == 9);
    assert("--files-with-diff"@.len() == 17);
    assert("--quiet"@[2] != "--check"@[2]);
    assert("-q"@[1] != "--"@[1] && "-l"@[1] != "--"@[1] && "-l"@[1] != "-q"@[1]);
    assert(a1[i] == "--quiet"@ && a2[i] == "-q"@ && a3[i] == "--files-with-diff"@ && a4[i] == "-l"@);
    assert(a1[i] != "--"@ && a1[i] != "--check"@);
    assert(a2[i] != "--"@ && a2[i] != "--check"@);
    assert(a3[i] != "--"@ && a3[i] != "--check"@ && a3[i] != "--quiet"@ && a3[i] != "-q"@
        && a3[i] != "--verbose"@);
    assert(a4[i] != "--"@ && a4[i] != "--check"@ && a4[i] != "--quiet"@ && a4[i] != "-q"@
        && a4[i] != "--verbose"@);
    lemma_parse_args_reads_on(a1, args, i + 1, true, q);
    lemma_parse_args_reads_on(a2, args, i + 1, true, q);
    lemma_parse_args_reads_on(a3, args, i + 1, true, l);
    lemma_parse_args_reads_on(a4, args, i + 1, true, l);
}

/// Where options are read, `--check` turns on `check` and `--verbose` turns on
/// `verbose`, and the rest of the command line is read as it would be anyway.
pub proof fn law_check_and_verbose_options(args: Seq<Seq<char>>, i: int, acc: CliView)
    requires
        0 <= i < args.len(),
    ensures
        parse_args(args.update(i, "--check"@), i, true, acc) == parse_args(
            args,
            i + 1,
            true,
            (CliView { check: true, ..acc }),
        ),
        parse_args(args.update(i, "--verbose"@), i, true, acc) == parse_args(
            args,
            i + 1,
            true,
            (CliView { verbose: true, ..acc }),
        ),
{
    reveal_strlit("--");
    reveal_strlit("--check");
    reveal_strlit("--quiet");
    reveal_strlit("-q");
    reveal_strlit("--verbose");
    assert("--"@.len() == 2 && "--check"@.len() == 7 && "--quiet"@.len() == 7);
    assert("-q"@.len() == 2 && "--verbose"@.len() == 9);
    let a1 = args.update(i, "--check"@);
    let a2 = args.update(i, "--verbose"@);
    assert(a1[i] == "--check"@ && a2[i] == "--verbose"@);
    lemma_parse_args_reads_on(a1, args, i + 1, true, (CliView { check: true, ..acc }));
    lemma_parse_args_reads_on(a2, args, i + 1, true, (CliView { verbose: true, ..acc }));
}

// ---------------------------------------------------------------------------
// Decisions of a run
// ---------------------------------------------------------------------------
/// What a command line asks for before any file is read.
#[derive(Debug, Clone, Copy, PartialEq, Eq)]
pub enum Invocation {
    Help,
    Version,
    Format,
}

/// The arguments without the `spaced` that cargo puts after the program name
/// when it runs `cargo spaced`.
pub open spec fn without_subcommand(args: Seq<Seq<char>>) -> Seq<Seq<char>> {
    if args.len() > 1 && args[1] == "spaced"@ {
        args.remove(1)
    } else {
        args
    }
}

pub open spec fn has_arg(args: Seq<Seq<char>>, x: Seq<char>, y: Seq<char>) -> bool {
    exists|k: int| 0 <= k < args.len() && (#[trigger] args[k] == x || args[k] == y)
}

pub open spec fn invocation_of(args: Seq<Seq<char>>) -> Invocation {
    if has_arg(args, "--help"@, "-h"@) {
        Invocation::Help
    } else if has_arg(args, "--version"@, "-V"@) {
        Invocation::Version
    } else {
        Invocation::Format
    }
}

fn find_arg(args: &Vec<String>, x: &str, y: &str) -> (r: bool)
    ensures
        r == has_arg(char_views(args@), x@, y@),
{
    let ghost av = char_views(args@);
    let mut k: usize = 0;
    while k < args.len()
        invariant
            av == char_views(args@),
            k <= args@.len(),
            forall|i: int| 0 <= i < k ==> !(#[trigger] av[i] == x@ || av[i] == y@),
        decreases args@.len() - k,
    {
        let a = args[k].as_str();
        if str_equal(a, x) || str_equal(a, y) {
            assert(av[k as int] == x@ || av[k as int] == y@);
            return true;
        }
        k = k + 1;
    }
    false
}

/// Drops the `spaced` subcommand name and tells whether help, the version or
/// a formatting run is asked for.
pub fn invocation(args: Vec<String>) -> (r: (Invocation, Vec<String>))
    ensures
        char_views(r.1@) == without_subcommand(char_views(args@)),
        r.0 == invocation_of(without_subcommand(char_views(args@))),
{
    let mut args = args;
    let ghost before = char_views(args@);
    if args.len() > 1 && str_equal(args[1].as_str(), "spaced") {
        args.remove(1);
        assert(char_views(args@) =~= before.remove(1));
    }
    if find_arg(&args, "--help", "-h") {
        return (Invocation::Help, args);
    }
    if find_arg(&args, "--version", "-V") {
        return (Invocation::Version, args);
    }
    (Invocation::Format, args)
}

/// What to do with a file once it has been formatted.
#[derive(Debug, Clone, Copy, PartialEq, Eq)]
pub enum FileAction {
    /// The file needs no change.
    Leave,
    /// `--check`: print the diff.
    PrintDiff,
    /// `--check --files-with-diff`: print the file's path.
    PrintPath,
    /// Write the formatted text back.
    Write,
    /// Write the formatted text back and print the file's path.
    WriteAndPrintPath,
}

pub open spec fn file_action_for(cli: CliView, changed: bool) -> FileAction {
    if !changed {
        FileAction::Leave
    } else if cli.check {
        if cli.files_with_diff {
            FileAction::PrintPath
        } else {
            FileAction::PrintDiff
        }
    } else if cli.files_with_diff {
        FileAction::WriteAndPrintPath
    } else {
        FileAction::Write
    }
}

/// What to do with a file, given whether formatting changed it.
pub fn file_action(cli: &Cli, changed: bool) -> (r: FileAction)
    ensures
        r == file_action_for(cli.view(), changed),
{
    if !changed {
        FileAction::Leave
    } else if cli.check {
        if cli.files_with_diff {
            FileAction::PrintPath
        } else {
            FileAction::PrintDiff
        }
    } else if cli.files_with_diff {
        FileAction::WriteAndPrintPath
    } else {
        FileAction::Write
    }
}

/// Whether each file is reported before it is formatted: `--verbose` without `--quiet`.
pub fn reports_progress(cli: &Cli) -> (r: bool)
    ensures
        r == (cli.verbose && !cli.quiet),
{
    cli.verbose && !cli.quiet
}

/// Whether the run ends in failure: a check that found files to format.
pub fn run_fails(cli: &Cli, needs_formatting: bool) -> (r: bool)
    ensures
        r == (cli.check && needs_formatting),
{
    cli.check && needs_formatting
}

/// The paths to walk: those given, or the current directory.
pub fn run_paths(cli: &Cli) -> (r: Vec<String>)
    ensures
        cli.paths@.len() == 0 ==> char_views(r@) == seq!["."@],
        cli.paths@.len() > 0 ==> char_views(r@) == char_views(cli.paths@),
{
    let mut r: Vec<String> = Vec::new();
    if cli.paths.len() == 0 {
        r.push(".".to_owned());
        assert(char_views(r@) =~= seq!["."@]);
        return r;
    }
    let mut k: usize = 0;
    while k < cli.paths.len()
        invariant
            k <= cli.paths@.len(),
            char_views(r@) == char_views(cli.paths@).take(k as int),
        decreases cli.paths@.len() - k,
    {
        let ghost before = r@;
        r.push(cli.paths[k].clone());
        proof {
            assert(char_views(r@) =~= char_views(before).push(cli.paths@[k as int]@));
            assert(char_views(cli.paths@).take(k + 1) =~= char_views(cli.paths@).take(k as int).push(
                cli.paths@[k as int]@,
            ));
        }
        k = k + 1;
    }
    assert(char_views(cli.paths@).take(cli.paths@.len() as int) =~= char_views(cli.paths@));
    r
}

/// The ignored paths of a run: those of the configuration, then those of the command line.
pub fn run_ignores(config_ignores: &Vec<String>, cli: &Cli) -> (r: Vec<String>)
    ensures
        char_views(r@) == char_views(config_ignores@) + char_views(cli.ignores@),
{
    let mut r: Vec<String> = Vec::new();
    let mut k: usize = 0;
    while k < config_ignores.len()
        invariant
            k <= config_ignores@.len(),
            char_views(r@) == char_views(config_ignores@).take(k as int),
        decreases config_ignores@.len() - k,
    {
        let ghost before = r@;
        r.push(config_ignores[k].clone());
        proof {
            assert(char_views(r@) =~= char_views(before).push(config_ignores@[k as int]@));
            assert(char_views(config_ignores@).take(k + 1) =~= char_views(config_ignores@).take(
                k as int,
            ).push(config_ignores@[k as int]@));
        }
        k = k + 1;
    }
    assert(char_views(config_ignores@).take(config_ignores@.len() as int) =~= char_views(
        config_ignores@,
    ));
    let mut j: usize = 0;
    while j < cli.ignores.len()
        invariant
            j <= cli.ignores@.len(),
            char_views(r@) == char_views(config_ignores@) + char_views(cli.ignores@).take(j as int),
        decreases cli.ignores@.len() - j,
    {
        let ghost before = r@;
        r.push(cli.ignores[j].clone());
        proof {
            assert(char_views(r@) =~= char_views(before).push(cli.ignores@[j as int]@));
            assert(char_views(cli.ignores@).take(j + 1) =~= char_views(cli.ignores@).take(j as int).push(
                cli.ignores@[j as int]@,
            ));
        }
        j = j + 1;
    }
    assert(char_views(cli.ignores@).take(cli.ignores@.len() as int) =~= char_views(cli.ignores@));
    r
}

} // verus!
