//! What a traversal is: the events that listing the dependencies of a binary
//! gives rise to, stated over a description of what the file system holds.
//!
//! The traversal is depth first. A binary is loaded and its header printed,
//! then each of its references is taken in link order: filtered out, marked as
//! a duplicate, or looked for at its candidate locations, of which the first
//! that exists wins and is entered in turn unless that would exceed the
//! maximum depth. A load failure ends everything.

use vstd::prelude::*;
use crate::filters::{disposition, Disposition};
use crate::loader::{BinaryView, Cause, LoadErrorView};
use crate::paths::candidates;
use crate::report::{LineKind, LineView};

verus! {

/// The settings of a traversal, as mathematical values.
pub struct Settings {
    pub max_depth: nat,
    pub ignore_prefixes: Seq<Seq<char>>,
    pub exclude_all_duplicates: bool,
    pub include_system_dependencies: bool,
    pub system_root: Option<Seq<char>>,
}

/// What the file system holds: the paths at which something exists, and what
/// loading the file at a path gives.
pub struct World {
    pub present: Set<Seq<char>>,
    pub files: Map<Seq<char>, Result<BinaryView, LoadErrorView>>,
}

impl World {
    /// What loading the file at `path` gives; a path of which nothing is
    /// recorded cannot be read.
    pub open spec fn load(self, path: Seq<char>) -> Result<BinaryView, LoadErrorView> {
        if self.files.dom().contains(path) {
            self.files[path]
        } else {
            Err(LoadErrorView { path, cause: Cause::Unreadable, detail: Seq::empty() })
        }
    }
}

/// A loaded binary in the tree: the file it came from, the name it is listed
/// under, its depth, and what it records.
pub struct Node {
    pub actual: Seq<char>,
    pub canonical: Seq<char>,
    pub depth: nat,
    pub libs: Seq<Seq<char>>,
    pub rpaths: Seq<Seq<char>>,
}

/// Something that a traversal does.
pub enum Event {
    /// The file at this path is read and parsed.
    Load(Seq<char>),
    /// This path is tested for existence.
    Probe(Seq<char>),
    /// This line is printed.
    Print(LineView),
}

/// What a part of a traversal comes to: its events in order, the references
/// met so far on this branch, and the failure that ended it, if one did.
pub struct Outcome {
    pub events: Seq<Event>,
    pub visited: Set<Seq<char>>,
    pub failure: Option<LoadErrorView>,
}

/// `rest`, preceded by `events`.
pub open spec fn after(events: Seq<Event>, rest: Outcome) -> Outcome {
    Outcome { events: events + rest.events, visited: rest.visited, failure: rest.failure }
}

/// The header line of a binary.
pub open spec fn header(node: Node) -> LineView {
    LineView { depth: node.depth, kind: LineKind::Header, name: node.canonical }
}

/// The line that marks `lib` as met before, among the references of `node`.
pub open spec fn duplicate_line(node: Node, lib: Seq<char>) -> LineView {
    LineView { depth: node.depth, kind: LineKind::Duplicate, name: lib }
}

/// The line that warns that `lib` was not found, among the references of
/// `node`.
pub open spec fn not_found_line(node: Node, lib: Seq<char>) -> LineView {
    LineView { depth: node.depth, kind: LineKind::NotFound, name: lib }
}

/// The node for a binary loaded from `actual` and listed as `canonical`.
pub open spec fn node_of(
    actual: Seq<char>,
    canonical: Seq<char>,
    depth: nat,
    binary: BinaryView,
) -> Node {
    Node { actual, canonical, depth, libs: binary.libs, rpaths: binary.rpaths }
}

/// The index of the first of `paths`, at or after `from`, that exists; their
/// number where none does.
pub open spec fn first_hit(w: World, paths: Seq<Seq<char>>, from: nat) -> nat
    decreases paths.len() - from,
{
    if from >= paths.len() {
        paths.len()
    } else if w.present.contains(paths[from as int]) {
        from
    } else {
        first_hit(w, paths, from + 1)
    }
}

/// A probe of each of `paths` from index `from` up to, not including, `to`.
pub open spec fn probes(paths: Seq<Seq<char>>, from: nat, to: nat) -> Seq<Event> {
    Seq::new((to - from) as nat, |k: int| Event::Probe(paths[from + k]))
}

/// The marker printed for a duplicate, unless duplicates are left out.
pub open spec fn duplicate_events(s: Settings, node: Node, lib: Seq<char>) -> Seq<Event> {
    if s.exclude_all_duplicates {
        Seq::empty()
    } else {
        seq![Event::Print(duplicate_line(node, lib))]
    }
}

/// The references of `node` from index `i` on, with `visited` met before.
pub open spec fn expand(w: World, s: Settings, node: Node, i: nat, visited: Set<Seq<char>>) -> Outcome
    decreases s.max_depth - node.depth, 0nat, node.libs.len() - i, 1nat,
{
    if i >= node.libs.len() {
        Outcome { events: Seq::empty(), visited, failure: None }
    } else {
        let lib = node.libs[i as int];
        match disposition(
            node.canonical,
            s.ignore_prefixes,
            s.include_system_dependencies,
            visited,
            lib,
        ) {
            Disposition::SelfFiltered => expand(w, s, node, i + 1, visited),
            Disposition::IgnoreFiltered => expand(w, s, node, i + 1, visited),
            Disposition::SystemFiltered => expand(w, s, node, i + 1, visited),
            Disposition::DuplicateMarked => after(
                duplicate_events(s, node, lib),
                expand(w, s, node, i + 1, visited),
            ),
            Disposition::Resolving => {
                let marked = visited.insert(lib);
                let found = settle(
                    w,
                    s,
                    node,
                    i,
                    candidates(s.system_root, node.actual, lib, node.rpaths),
                    0,
                    marked,
                );
                if found.failure is Some {
                    found
                } else {
                    after(found.events, expand(w, s, node, i + 1, marked.union(found.visited)))
                }
            },
        }
    }
}

/// The resolution of reference `i` of `node`, whose candidate locations are
/// `paths`, from the probe of candidate `from` on: the probes up to the first
/// that exists, then a warning where none does, nothing more where the
/// maximum depth is reached, and otherwise the binary found there.
pub open spec fn settle(
    w: World,
    s: Settings,
    node: Node,
    i: nat,
    paths: Seq<Seq<char>>,
    from: nat,
    visited: Set<Seq<char>>,
) -> Outcome
    decreases s.max_depth - node.depth, 0nat, node.libs.len() - i, 0nat,
{
    let hit = first_hit(w, paths, from);
    if hit >= paths.len() {
        Outcome {
            events: probes(paths, from, paths.len()) + seq![
                Event::Print(not_found_line(node, node.libs[i as int])),
            ],
            visited,
            failure: None,
        }
    } else if node.depth + 1 > s.max_depth {
        Outcome { events: probes(paths, from, hit + 1), visited, failure: None }
    } else {
        after(
            probes(paths, from, hit + 1),
            enter(w, s, paths[hit as int], node.libs[i as int], node.depth + 1, visited),
        )
    }
}

/// The binary at `actual`, listed as `canonical` at `depth`: its load, then
/// its header and its references, or the failure to load it.
pub open spec fn enter(
    w: World,
    s: Settings,
    actual: Seq<char>,
    canonical: Seq<char>,
    depth: nat,
    visited: Set<Seq<char>>,
) -> Outcome
    decreases s.max_depth - depth, 1nat, 0nat, 0nat,
{
    match w.load(actual) {
        Err(e) => Outcome { events: seq![Event::Load(actual)], visited, failure: Some(e) },
        Ok(binary) => {
            let node = node_of(actual, canonical, depth, binary);
            after(
                seq![Event::Load(actual), Event::Print(header(node))],
                expand(w, s, node, 0, visited),
            )
        },
    }
}

/// The whole traversal from the binary at `root`. The root is listed under
/// its path, and that name counts as met from the start: a reference back to
/// the root is a duplicate.
pub open spec fn tree(w: World, s: Settings, root: Seq<char>) -> Outcome {
    enter(w, s, root, root, 0, set![root])
}

} // verus!
