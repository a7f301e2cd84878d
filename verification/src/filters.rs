//! The filters that decide what becomes of a dependency reference before any
//! attempt to resolve it.

use vstd::prelude::*;
use crate::text::{contains_text, same_text, starts_with, views};

verus! {

/// Whether `lib` starts with one of `prefixes`.
pub open spec fn ignored(lib: Seq<char>, prefixes: Seq<Seq<char>>) -> bool {
    exists|i: int| 0 <= i < prefixes.len() && (#[trigger] prefixes[i]).is_prefix_of(lib)
}

/// Whether `lib` lies under one of the locations of system libraries.
pub open spec fn system_reference(lib: Seq<char>) -> bool {
    "/usr/lib/"@.is_prefix_of(lib) || "/System"@.is_prefix_of(lib) || "@rpath/libswift"@.is_prefix_of(
        lib,
    )
}

/// Whether a reference names the binary that records it: the placeholder
/// `self`, or the name under which the binary itself is listed.
pub open spec fn own_identity(canonical: Seq<char>, lib: Seq<char>) -> bool {
    lib == "self"@ || lib == canonical
}

/// What becomes of a reference when the traversal reaches it.
#[derive(Clone, Copy, Debug, PartialEq, Eq)]
pub enum Disposition {
    /// It names the binary that records it.
    SelfFiltered,
    /// It starts with a prefix that the caller asked to leave out.
    IgnoreFiltered,
    /// It is a system library, and those are left out.
    SystemFiltered,
    /// It was met before on the way here.
    DuplicateMarked,
    /// It is looked for on disk.
    Resolving,
}

/// The disposition of `lib`, recorded by the binary listed as `canonical`,
/// once the references in `visited` have been met. The filters apply in this
/// order, and the first that matches decides.
pub open spec fn disposition(
    canonical: Seq<char>,
    ignore_prefixes: Seq<Seq<char>>,
    include_system: bool,
    visited: Set<Seq<char>>,
    lib: Seq<char>,
) -> Disposition {
    if own_identity(canonical, lib) {
        Disposition::SelfFiltered
    } else if ignored(lib, ignore_prefixes) {
        Disposition::IgnoreFiltered
    } else if !include_system && system_reference(lib) {
        Disposition::SystemFiltered
    } else if visited.contains(lib) {
        Disposition::DuplicateMarked
    } else {
        Disposition::Resolving
    }
}

/// Whether `lib` starts with one of `ignore_prefixes`.
pub fn should_ignore(lib: &str, ignore_prefixes: &Vec<String>) -> (r: bool)
    ensures
        r == ignored(lib@, views(ignore_prefixes@)),
{
    let mut i: usize = 0;
    while i < ignore_prefixes.len()
        invariant
            i <= ignore_prefixes.len(),
            forall|k: int| 0 <= k < i ==> !(#[trigger] views(ignore_prefixes@)[k]).is_prefix_of(lib@),
        decreases ignore_prefixes.len() - i,
    {
        if starts_with(lib, ignore_prefixes[i].as_str()) {
            assert(views(ignore_prefixes@)[i as int].is_prefix_of(lib@));
            return true;
        }
        i += 1;
    }
    false
}

/// Whether `lib` lies under one of the locations of system libraries.
pub fn is_system_dependency(lib: &str) -> (r: bool)
    ensures
        r == system_reference(lib@),
{
    starts_with(lib, "/usr/lib/") || starts_with(lib, "/System") || starts_with(
        lib,
        "@rpath/libswift",
    )
}

/// The disposition of the reference `lib` of the binary listed as `canonical`.
pub fn classify(
    canonical: &str,
    ignore_prefixes: &Vec<String>,
    include_system: bool,
    visited: &Vec<String>,
    lib: &str,
) -> (d: Disposition)
    ensures
        d == disposition(
            canonical@,
            views(ignore_prefixes@),
            include_system,
            views(visited@).to_set(),
            lib@,
        ),
{
    if same_text(lib, "self") || same_text(lib, canonical) {
        Disposition::SelfFiltered
    } else if should_ignore(lib, ignore_prefixes) {
        Disposition::IgnoreFiltered
    } else if !include_system && is_system_dependency(lib) {
        Disposition::SystemFiltered
    } else if contains_text(visited, lib) {
        Disposition::DuplicateMarked
    } else {
        Disposition::Resolving
    }
}

} // verus!
