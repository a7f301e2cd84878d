//! Candidate locations for a dependency reference.
//!
//! Paths are strings whose components are separated by `/`. A reference is
//! turned into an ordered list of places to look, by the binary's run-time
//! search paths when it begins with `@rpath/`, and otherwise by the path as
//! recorded together with its versioned-framework forms, each of these also
//! under the system-image root when one is set.

use vstd::prelude::*;
use vstd::string::*;
use crate::text::{chars_of, lemma_views_push, opt_view, starts_with, views};

verus! {

/// `rel` resolved against the directory `base`: an absolute `rel` stands alone,
/// otherwise it follows `base`, with one `/` between them where `base` does not
/// already end in one.
pub open spec fn joined(base: Seq<char>, rel: Seq<char>) -> Seq<char> {
    if rel.len() > 0 && rel[0] == '/' {
        rel
    } else if base.len() > 0 && base.last() != '/' {
        base + seq!['/'] + rel
    } else {
        base + rel
    }
}

/// Index of the last `/` of `s`, or -1 where it has none.
pub open spec fn last_slash(s: Seq<char>) -> int
    decreases s.len(),
{
    if s.len() == 0 {
        -1
    } else if s.last() == '/' {
        s.len() - 1
    } else {
        last_slash(s.drop_last())
    }
}

/// The directory that holds `path`: what stands before its last `/`, the root
/// itself for an entry of the root, and nothing for a bare name.
pub open spec fn parent_of(path: Seq<char>) -> Seq<char> {
    let i = last_slash(path);
    if i < 0 {
        Seq::empty()
    } else if i == 0 {
        path.take(1)
    } else {
        path.take(i)
    }
}

/// `path` without its leading `/`, if it has one.
pub open spec fn without_root(path: Seq<char>) -> Seq<char> {
    if path.len() > 0 && path[0] == '/' {
        path.skip(1)
    } else {
        path
    }
}

/// The same path below `root`.
pub open spec fn rebased(root: Seq<char>, path: Seq<char>) -> Seq<char> {
    joined(root, without_root(path))
}

/// The text that closes a framework bundle's directory name.
pub open spec fn framework_marker() -> Seq<char> {
    ".framework/"@
}

/// Whether a path segment of the form `<name>.framework/`, with a name of at
/// least one character, ends just before index `j` of `s`.
pub open spec fn framework_dir_ends_at(s: Seq<char>, j: int) -> bool {
    let m = framework_marker();
    &&& m.len() < j <= s.len()
    &&& s.subrange(j - m.len(), j) == m
    &&& s[j - m.len() - 1] != '/'
}

/// The least index at or after `j` before which a framework segment ends.
pub open spec fn framework_end_from(s: Seq<char>, j: int) -> Option<int>
    decreases s.len() + 1 - j,
{
    if j > s.len() {
        None
    } else if framework_dir_ends_at(s, j) {
        Some(j)
    } else {
        framework_end_from(s, j + 1)
    }
}

/// The index just past the first framework segment of `s`.
pub open spec fn framework_end(s: Seq<char>) -> Option<int> {
    framework_end_from(s, 0)
}

/// `s` with `Versions/<version>/` inserted after its first framework segment;
/// `s` itself where it has none.
pub open spec fn versioned(s: Seq<char>, version: Seq<char>) -> Seq<char> {
    match framework_end(s) {
        Some(j) => s.take(j) + "Versions/"@ + version + seq!['/'] + s.skip(j),
        None => s,
    }
}

/// A recorded path and, where it names a framework, its four versioned forms.
pub open spec fn variants(path: Seq<char>) -> Seq<Seq<char>> {
    if framework_end(path) is Some {
        seq![
            path,
            versioned(path, "A"@),
            versioned(path, "B"@),
            versioned(path, "C"@),
            versioned(path, "D"@),
        ]
    } else {
        seq![path]
    }
}

/// Every path of `paths` below `root`, in the same order.
pub open spec fn rebased_all(root: Seq<char>, paths: Seq<Seq<char>>) -> Seq<Seq<char>> {
    Seq::new(paths.len(), |i: int| rebased(root, paths[i]))
}

/// The compatibility subtree of a system image.
pub open spec fn ios_support(root: Seq<char>) -> Seq<char> {
    joined(root, "System/iOSSupport"@)
}

/// Where a path recorded literally is looked for.
pub open spec fn literal_candidates(root: Option<Seq<char>>, path: Seq<char>) -> Seq<Seq<char>> {
    match root {
        None => variants(path),
        Some(r) => variants(path) + rebased_all(r, variants(path)) + rebased_all(
            ios_support(r),
            variants(path),
        ),
    }
}

/// Whether a search path is relative to the binary that records it.
pub open spec fn owner_relative(rpath: Seq<char>) -> bool {
    "@executable_path/"@.is_prefix_of(rpath) || "@loader_path/"@.is_prefix_of(rpath)
}

/// What follows the first `/` of an owner-relative search path.
pub open spec fn owner_relative_tail(rpath: Seq<char>) -> Seq<char> {
    if "@executable_path/"@.is_prefix_of(rpath) {
        rpath.skip("@executable_path/"@.len() as int)
    } else {
        rpath.skip("@loader_path/"@.len() as int)
    }
}

/// The place where `suffix` is looked for by one search path of the binary at
/// `owner`: below the directory of the binary for a search path that is
/// relative to it, and below the search path itself for any other.
pub open spec fn search_path_place(owner: Seq<char>, suffix: Seq<char>, rpath: Seq<char>) -> Seq<
    char,
> {
    if owner_relative(rpath) {
        joined(joined(parent_of(owner), owner_relative_tail(rpath)), suffix)
    } else {
        joined(rpath, suffix)
    }
}

/// Where `suffix` is looked for by one search path of the binary at `owner`:
/// at its place and, where there is a system root, at the same place below
/// that root.
pub open spec fn search_path_candidates(
    root: Option<Seq<char>>,
    owner: Seq<char>,
    suffix: Seq<char>,
    rpath: Seq<char>,
) -> Seq<Seq<char>> {
    let direct = search_path_place(owner, suffix, rpath);
    match root {
        None => seq![direct],
        Some(r) => seq![direct, rebased(r, direct)],
    }
}

/// Where `suffix` is looked for by the search paths `rpaths`, in their order.
pub open spec fn rpath_candidates(
    root: Option<Seq<char>>,
    owner: Seq<char>,
    suffix: Seq<char>,
    rpaths: Seq<Seq<char>>,
) -> Seq<Seq<char>>
    decreases rpaths.len(),
{
    if rpaths.len() == 0 {
        Seq::empty()
    } else {
        rpath_candidates(root, owner, suffix, rpaths.drop_last()) + search_path_candidates(
            root,
            owner,
            suffix,
            rpaths.last(),
        )
    }
}

/// The ordered places where `reference`, recorded by the binary at `owner` with
/// search paths `rpaths`, is looked for.
pub open spec fn candidates(
    root: Option<Seq<char>>,
    owner: Seq<char>,
    reference: Seq<char>,
    rpaths: Seq<Seq<char>>,
) -> Seq<Seq<char>> {
    if "@rpath/"@.is_prefix_of(reference) {
        rpath_candidates(root, owner, reference.skip("@rpath/"@.len() as int), rpaths)
    } else {
        literal_candidates(root, reference)
    }
}

/// The first framework segment of a path is the leftmost one: no such segment
/// ends before the index that `framework_end` gives, and none ends anywhere
/// where it gives nothing.
pub proof fn lemma_framework_end_is_first(s: Seq<char>)
    ensures
        match framework_end(s) {
            Some(j) => framework_dir_ends_at(s, j) && forall|k: int|
                k < j ==> !framework_dir_ends_at(s, k),
            None => forall|k: int| !framework_dir_ends_at(s, k),
        },
{
    lemma_framework_end_from(s, 0);
}

proof fn lemma_framework_end_from(s: Seq<char>, i: int)
    requires
        0 <= i,
    ensures
        match framework_end_from(s, i) {
            Some(j) => i <= j && framework_dir_ends_at(s, j) && forall|k: int|
                i <= k < j ==> !framework_dir_ends_at(s, k),
            None => forall|k: int| i <= k ==> !framework_dir_ends_at(s, k),
        },
    decreases s.len() + 1 - i,
{
    if i <= s.len() && !framework_dir_ends_at(s, i) {
        lemma_framework_end_from(s, i + 1);
    }
}

/// `rel` resolved against the directory `base`.
pub fn join(base: &str, rel: &str) -> (r: String)
    ensures
        r@ == joined(base@, rel@),
{
    let b = chars_of(base);
    let t = chars_of(rel);
    if t.len() > 0 && t[0] == '/' {
        return rel.to_owned();
    }
    let mut out = base.to_owned();
    if b.len() > 0 && b[b.len() - 1] != '/' {
        proof {
            reveal_strlit("/");
            assert("/"@ =~= seq!['/']);
        }
        out.append("/");
    }
    out.append(rel);
    out
}

/// The directory that holds `path`.
pub fn parent_dir(path: &str) -> (r: String)
    ensures
        r@ == parent_of(path@),
{
    let c = chars_of(path);
    let mut i: usize = c.len();
    assert(c@.take(i as int) =~= c@);
    while i > 0 && c[i - 1] != '/'
        invariant
            i <= c.len(),
            c@ == path@,
            last_slash(c@) == last_slash(c@.take(i as int)),
        decreases i,
    {
        assert(c@.take(i as int).drop_last() =~= c@.take(i - 1));
        i -= 1;
    }
    if i == 0 {
        String::new()
    } else if i == 1 {
        path.substring_char(0, 1).to_owned()
    } else {
        path.substring_char(0, i - 1).to_owned()
    }
}

/// `path` below `root`.
pub fn rebase(root: &str, path: &str) -> (r: String)
    ensures
        r@ == rebased(root@, path@),
{
    let c = chars_of(path);
    if c.len() > 0 && c[0] == '/' {
        join(root, path.substring_char(1, c.len()))
    } else {
        join(root, path)
    }
}

/// The index just past the first `<name>.framework/` segment of `path`, counted
/// in characters.
pub fn framework_split(path: &str) -> (r: Option<usize>)
    ensures
        match r {
            Some(j) => framework_end(path@) == Some(j as int),
            None => framework_end(path@) is None,
        },
{
    let c = chars_of(path);
    let m = chars_of(".framework/");
    let mut i: usize = 0;
    assert(!framework_dir_ends_at(c@, 0));
    while i < c.len()
        invariant
            i <= c.len(),
            c@ == path@,
            m@ == framework_marker(),
            framework_end_from(c@, 0) == framework_end_from(c@, i + 1),
        decreases c.len() - i,
    {
        let j: usize = i + 1;
        if j > m.len() && c[j - m.len() - 1] != '/' {
            let mut k: usize = 0;
            let start: usize = j - m.len();
            while k < m.len() && c[start + k] == m[k]
                invariant
                    k <= m.len(),
                    start + m.len() == j,
                    j <= c.len(),
                    forall|x: int| 0 <= x < k ==> c@[start + x] == m@[x],
                decreases m.len() - k,
            {
                k += 1;
            }
            if k == m.len() {
                assert(c@.subrange(j - m@.len(), j as int) =~= m@);
                return Some(j);
            }
            assert(c@.subrange(j - m@.len(), j as int)[k as int] != m@[k as int]);
        }
        assert(!framework_dir_ends_at(c@, j as int));
        i += 1;
    }
    None
}

/// `lib` with `Versions/<version>/` inserted after its first framework
/// segment, below `prefix` where one is given.
pub fn versioned_path(prefix: &Option<String>, lib: &str, version: &str) -> (r: String)
    ensures
        r@ == match opt_view(*prefix) {
            Some(p) => rebased(p, versioned(lib@, version@)),
            None => versioned(lib@, version@),
        },
{
    let rewritten = match framework_split(lib) {
        Some(j) => {
            proof {
                lemma_framework_end_is_first(lib@);
            }
            let n: usize = lib.unicode_len();
            let mut out = lib.substring_char(0, j).to_owned();
            out.append("Versions/");
            out.append(version);
            proof {
                reveal_strlit("/");
                assert("/"@ =~= seq!['/']);
            }
            out.append("/");
            out.append(lib.substring_char(j, n));
            out
        },
        None => lib.to_owned(),
    };
    match prefix {
        Some(p) => rebase(p.as_str(), rewritten.as_str()),
        None => rewritten,
    }
}

/// Appends to `out` the literal path `lib` and its versioned forms, below
/// `prefix` where one is given.
fn push_variants(out: &mut Vec<String>, prefix: &Option<String>, lib: &str)
    ensures
        views(final(out)@) == views(old(out)@) + match opt_view(*prefix) {
            Some(p) => rebased_all(p, variants(lib@)),
            None => variants(lib@),
        },
{
    let ghost before = views(out@);
    let first = match prefix {
        Some(p) => rebase(p.as_str(), lib),
        None => lib.to_owned(),
    };
    proof {
        lemma_views_push(out@, first);
    }
    out.push(first);
    if framework_split(lib).is_some() {
        let a = versioned_path(prefix, lib, "A");
        proof {
            lemma_views_push(out@, a);
        }
        out.push(a);
        let b = versioned_path(prefix, lib, "B");
        proof {
            lemma_views_push(out@, b);
        }
        out.push(b);
        let c = versioned_path(prefix, lib, "C");
        proof {
            lemma_views_push(out@, c);
        }
        out.push(c);
        let d = versioned_path(prefix, lib, "D");
        proof {
            lemma_views_push(out@, d);
        }
        out.push(d);
    }
    proof {
        let added = match opt_view(*prefix) {
            Some(p) => rebased_all(p, variants(lib@)),
            None => variants(lib@),
        };
        assert(views(out@) =~= before + added);
    }
}

/// The ordered places where the reference `lib`, recorded by the binary at
/// `executable_path` with search paths `rpaths`, is looked for.
pub fn get_potential_paths(
    shared_cache_root: &Option<String>,
    executable_path: &str,
    lib: &str,
    rpaths: &Vec<String>,
) -> (paths: Vec<String>)
    ensures
        views(paths@) == candidates(
            opt_view(*shared_cache_root),
            executable_path@,
            lib@,
            views(rpaths@),
        ),
{
    let mut paths: Vec<String> = Vec::new();
    let ghost root = opt_view(*shared_cache_root);
    assert(views(paths@) =~= Seq::<Seq<char>>::empty());
    if starts_with(lib, "@rpath/") {
        let skip: usize = "@rpath/".unicode_len();
        let total: usize = lib.unicode_len();
        let suffix = lib.substring_char(skip, total);
        let mut i: usize = 0;
        while i < rpaths.len()
            invariant
                i <= rpaths.len(),
                root == opt_view(*shared_cache_root),
                views(paths@) == rpath_candidates(
                    root,
                    executable_path@,
                    suffix@,
                    views(rpaths@).take(i as int),
                ),
            decreases rpaths.len() - i,
        {
            let rpath = rpaths[i].as_str();
            let ghost before = views(paths@);
            proof {
                assert(views(rpaths@).take(i + 1).drop_last() =~= views(rpaths@).take(i as int));
                assert(views(rpaths@).take(i + 1).last() == rpath@);
            }
            let from_executable = starts_with(rpath, "@executable_path/");
            let path = if from_executable || starts_with(rpath, "@loader_path/") {
                let cut: usize = if from_executable {
                    "@executable_path/".unicode_len()
                } else {
                    "@loader_path/".unicode_len()
                };
                let tail = rpath.substring_char(cut, rpath.unicode_len());
                let dir = parent_dir(executable_path);
                let base = join(dir.as_str(), tail);
                join(base.as_str(), suffix)
            } else {
                join(rpath, suffix)
            };
            assert(path@ == search_path_place(executable_path@, suffix@, rpath@));
            match shared_cache_root {
                Some(r) => {
                    let below = rebase(r.as_str(), path.as_str());
                    proof {
                        lemma_views_push(paths@, path);
                        lemma_views_push(paths@.push(path), below);
                        assert(before.push(path@).push(below@) =~= before + seq![
                            path@,
                            below@,
                        ]);
                    }
                    paths.push(path);
                    paths.push(below);
                },
                None => {
                    proof {
                        lemma_views_push(paths@, path);
                        assert(before.push(path@) =~= before + seq![path@]);
                    }
                    paths.push(path);
                },
            }
            i += 1;
        }
        assert(views(rpaths@).take(rpaths@.len() as int) =~= views(rpaths@));
    } else {
        push_variants(&mut paths, &None, lib);
        match shared_cache_root {
            Some(r) => {
                push_variants(&mut paths, shared_cache_root, lib);
                let ios = Some(join(r.as_str(), "System/iOSSupport"));
                push_variants(&mut paths, &ios, lib);
            },
            None => {},
        }
    }
    paths
}

} // verus!
