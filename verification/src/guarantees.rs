//! What holds of every traversal.
//!
//! Each statement here is about `tree` and the functions it is made of, which
//! `refinement` shows to be what a walker does.

use vstd::prelude::*;
use crate::filters::{disposition, ignored, own_identity, system_reference, Disposition};
use crate::loader::{BinaryView, LoadErrorView};
use crate::paths::candidates;
use crate::report::{indent_of, rendered, spaces, LineKind, LineView};
use crate::tree::{
    after, duplicate_events, enter, expand, first_hit, header, node_of, not_found_line, probes,
    settle, tree, Event, Node, Settings, World,
};

verus! {

/// The lines that `events` print, in order.
pub open spec fn printed(events: Seq<Event>) -> Seq<LineView>
    decreases events.len(),
{
    if events.len() == 0 {
        Seq::empty()
    } else {
        match events.last() {
            Event::Print(line) => printed(events.drop_last()).push(line),
            _ => printed(events.drop_last()),
        }
    }
}

/// Whether one of the filters passes over `lib` among the references of the
/// binary listed as `canonical`.
pub open spec fn filtered(s: Settings, canonical: Seq<char>, lib: Seq<char>) -> bool {
    own_identity(canonical, lib) || ignored(lib, s.ignore_prefixes) || (
    !s.include_system_dependencies && system_reference(lib))
}

/// The candidate locations of reference `i` of `node`.
pub open spec fn places(s: Settings, node: Node, i: nat) -> Seq<Seq<char>> {
    candidates(s.system_root, node.actual, node.libs[i as int], node.rpaths)
}

/// The lines printed by a sequence of events are those of its parts.
proof fn lemma_printed_concat(a: Seq<Event>, b: Seq<Event>)
    ensures
        printed(a + b) == printed(a) + printed(b),
    decreases b.len(),
{
    if b.len() == 0 {
        assert(a + b =~= a);
        assert(printed(a) + printed(b) =~= printed(a));
    } else {
        assert((a + b).drop_last() =~= a + b.drop_last());
        lemma_printed_concat(a, b.drop_last());
        match b.last() {
            Event::Print(line) => {
                assert(printed(a + b) =~= printed(a) + printed(b));
            },
            _ => {},
        }
    }
}

/// Probes print nothing.
proof fn lemma_printed_probes(paths: Seq<Seq<char>>, from: nat, to: nat)
    requires
        from <= to <= paths.len(),
    ensures
        printed(probes(paths, from, to)) == Seq::<LineView>::empty(),
    decreases to - from,
{
    if from < to {
        assert(probes(paths, from, to).drop_last() =~= probes(paths, from, (to - 1) as nat));
        lemma_printed_probes(paths, from, (to - 1) as nat);
    }
}

/// A binary that records no reference but its own identity is listed by its
/// header alone: it is loaded, one line is printed, and nothing else happens.
pub proof fn law_no_references(w: World, s: Settings, root: Seq<char>, binary: BinaryView)
    requires
        w.load(root) == Ok::<BinaryView, LoadErrorView>(binary),
        forall|i: int| 0 <= i < binary.libs.len() ==> own_identity(root, #[trigger] binary.libs[i]),
    ensures
        tree(w, s, root).events == seq![
            Event::Load(root),
            Event::Print(LineView { depth: 0, kind: LineKind::Header, name: root }),
        ],
        tree(w, s, root).failure is None,
{
    let node = node_of(root, root, 0, binary);
    lemma_only_own_identity(w, s, node, 0, set![root]);
    assert(tree(w, s, root).events =~= seq![Event::Load(root), Event::Print(header(node))]);
}

proof fn lemma_only_own_identity(
    w: World,
    s: Settings,
    node: Node,
    i: nat,
    visited: Set<Seq<char>>,
)
    requires
        forall|k: int|
            0 <= k < node.libs.len() ==> own_identity(node.canonical, #[trigger] node.libs[k]),
    ensures
        expand(w, s, node, i, visited).events == Seq::<Event>::empty(),
        expand(w, s, node, i, visited).failure is None,
    decreases node.libs.len() - i,
{
    if i < node.libs.len() {
        assert(own_identity(node.canonical, node.libs[i as int]));
        lemma_only_own_identity(w, s, node, i + 1, visited);
    }
}

/// A reference that names the binary that records it, by the placeholder
/// `self` or by the name under which the binary is listed, is passed over:
/// nothing is printed or probed for it and it is not marked as met.
pub proof fn law_own_identity_is_passed_over(
    w: World,
    s: Settings,
    node: Node,
    i: nat,
    visited: Set<Seq<char>>,
)
    requires
        i < node.libs.len(),
        own_identity(node.canonical, node.libs[i as int]),
    ensures
        expand(w, s, node, i, visited) == expand(w, s, node, i + 1, visited),
{
}

/// A reference that starts with one of the ignored prefixes is passed over:
/// nothing is printed or probed for it and it is not marked as met.
pub proof fn law_ignored_reference_is_passed_over(
    w: World,
    s: Settings,
    node: Node,
    i: nat,
    visited: Set<Seq<char>>,
)
    requires
        i < node.libs.len(),
        ignored(node.libs[i as int], s.ignore_prefixes),
    ensures
        expand(w, s, node, i, visited) == expand(w, s, node, i + 1, visited),
{
}

/// While system libraries are left out, a reference to one is passed over:
/// nothing is printed or probed for it and it is not marked as met.
pub proof fn law_system_reference_is_passed_over(
    w: World,
    s: Settings,
    node: Node,
    i: nat,
    visited: Set<Seq<char>>,
)
    requires
        i < node.libs.len(),
        !s.include_system_dependencies,
        system_reference(node.libs[i as int]),
    ensures
        expand(w, s, node, i, visited) == expand(w, s, node, i + 1, visited),
{
}

/// A reference that no filter passes over and that was not met before is
/// marked as met and resolved at its candidate locations, and the references
/// after it follow unless a load failed. While system libraries are included
/// this holds of a reference to one as of any other.
pub proof fn law_fresh_reference_is_resolved(
    w: World,
    s: Settings,
    node: Node,
    i: nat,
    visited: Set<Seq<char>>,
)
    requires
        i < node.libs.len(),
        !own_identity(node.canonical, node.libs[i as int]),
        !ignored(node.libs[i as int], s.ignore_prefixes),
        s.include_system_dependencies || !system_reference(node.libs[i as int]),
        !visited.contains(node.libs[i as int]),
    ensures
        ({
            let marked = visited.insert(node.libs[i as int]);
            let found = settle(w, s, node, i, places(s, node, i), 0, marked);
            expand(w, s, node, i, visited) == if found.failure is Some {
                found
            } else {
                after(found.events, expand(w, s, node, i + 1, marked.union(found.visited)))
            }
        }),
{
}

/// A reference that was met before on the way, and that no filter passes
/// over, is never probed or loaded again. It gives exactly one line, its
/// duplicate marker, or no line at all where duplicates are left out; the
/// references after it follow.
pub proof fn law_duplicate_is_marked_once(
    w: World,
    s: Settings,
    node: Node,
    i: nat,
    visited: Set<Seq<char>>,
)
    requires
        i < node.libs.len(),
        !filtered(s, node.canonical, node.libs[i as int]),
        visited.contains(node.libs[i as int]),
    ensures
        ({
            let rest = expand(w, s, node, i + 1, visited);
            let marker = Event::Print(
                LineView {
                    depth: node.depth,
                    kind: LineKind::Duplicate,
                    name: node.libs[i as int],
                },
            );
            &&& expand(w, s, node, i, visited).events == if s.exclude_all_duplicates {
                rest.events
            } else {
                seq![marker] + rest.events
            }
            &&& expand(w, s, node, i, visited).visited == rest.visited
            &&& expand(w, s, node, i, visited).failure == rest.failure
        }),
{
    let rest = expand(w, s, node, i + 1, visited);
    assert(Seq::<Event>::empty() + rest.events =~= rest.events);
}

/// A reference none of whose candidate locations exists is probed at each of
/// them in order, then gives one warning, indented two columns further than
/// the header of the binary that records it; the references after it follow.
pub proof fn law_unresolved_reference_warns_and_goes_on(
    w: World,
    s: Settings,
    node: Node,
    i: nat,
    visited: Set<Seq<char>>,
)
    requires
        i < node.libs.len(),
        !filtered(s, node.canonical, node.libs[i as int]),
        !visited.contains(node.libs[i as int]),
        forall|k: int|
            0 <= k < places(s, node, i).len() ==> !w.present.contains(
                #[trigger] places(s, node, i)[k],
            ),
    ensures
        ({
            let lib = node.libs[i as int];
            let paths = places(s, node, i);
            let warning = LineView { depth: node.depth, kind: LineKind::NotFound, name: lib };
            let rest = expand(w, s, node, i + 1, visited.insert(lib));
            &&& expand(w, s, node, i, visited).events == probes(paths, 0, paths.len()) + seq![
                Event::Print(warning),
            ] + rest.events
            &&& expand(w, s, node, i, visited).visited == rest.visited
            &&& expand(w, s, node, i, visited).failure == rest.failure
            &&& rendered(warning) == spaces(2 * node.depth + 2) + lib + ": warning: not found"@
            &&& indent_of(warning) == indent_of(header(node)) + 2
        }),
{
    let lib = node.libs[i as int];
    let paths = places(s, node, i);
    let marked = visited.insert(lib);
    lemma_no_hit(w, paths, 0);
    assert(marked.union(marked) =~= marked);
    let found = settle(w, s, node, i, paths, 0, marked);
    let rest = expand(w, s, node, i + 1, marked);
    let warning = not_found_line(node, lib);
    assert(found.events =~= probes(paths, 0, paths.len()) + seq![Event::Print(warning)]);
    assert(expand(w, s, node, i, visited).events =~= probes(paths, 0, paths.len()) + seq![
        Event::Print(warning),
    ] + rest.events);
}

proof fn lemma_no_hit(w: World, paths: Seq<Seq<char>>, from: nat)
    requires
        forall|k: int| 0 <= k < paths.len() ==> !w.present.contains(#[trigger] paths[k]),
    ensures
        first_hit(w, paths, from) == paths.len(),
    decreases paths.len() - from,
{
    if from < paths.len() {
        lemma_no_hit(w, paths, from + 1);
    }
}

/// Whether reference `i` of a binary at the maximum depth gives no line: a
/// filter passes over it; or it repeats an earlier reference of the binary
/// and duplicates are left out; or it is the first of its name and one of its
/// candidate locations exists.
pub open spec fn quiet_at_depth_limit(w: World, s: Settings, node: Node, i: nat) -> bool {
    let lib = node.libs[i as int];
    filtered(s, node.canonical, lib) || if exists|j: int| 0 <= j < i && node.libs[j] == lib {
        s.exclude_all_duplicates
    } else {
        first_hit(w, places(s, node, i), 0) < places(s, node, i).len()
    }
}

/// At the maximum depth no binary is entered: the references of a binary
/// there give no load and no header, only probes, duplicate markers and
/// warnings, all of them lines of that binary.
pub proof fn law_depth_limit_is_kept(
    w: World,
    s: Settings,
    node: Node,
    i: nat,
    visited: Set<Seq<char>>,
)
    requires
        node.depth >= s.max_depth,
    ensures
        expand(w, s, node, i, visited).failure is None,
        forall|k: int|
            0 <= k < expand(w, s, node, i, visited).events.len() ==> match (
            #[trigger] expand(w, s, node, i, visited).events[k]) {
                Event::Load(_) => false,
                Event::Probe(_) => true,
                Event::Print(line) => line.depth == node.depth && line.kind != LineKind::Header,
            },
    decreases node.libs.len() - i,
{
    if i < node.libs.len() {
        let lib = node.libs[i as int];
        match disposition(
            node.canonical,
            s.ignore_prefixes,
            s.include_system_dependencies,
            visited,
            lib,
        ) {
            Disposition::Resolving => {
                let marked = visited.insert(lib);
                let found = settle(w, s, node, i, places(s, node, i), 0, marked);
                law_depth_limit_is_kept(w, s, node, i + 1, marked.union(found.visited));
            },
            _ => {
                law_depth_limit_is_kept(w, s, node, i + 1, visited);
            },
        }
    }
}

proof fn lemma_quiet_at_depth_limit(
    w: World,
    s: Settings,
    node: Node,
    i: nat,
    visited: Set<Seq<char>>,
)
    requires
        node.depth >= s.max_depth,
        forall|k: nat| i <= k < node.libs.len() ==> quiet_at_depth_limit(w, s, node, k),
        forall|j: int|
            0 <= j < i && !filtered(s, node.canonical, #[trigger] node.libs[j])
                ==> visited.contains(node.libs[j]),
        forall|x: Seq<char>| visited.contains(x) ==> #[trigger] known_before(node, i, x),
    ensures
        printed(expand(w, s, node, i, visited).events) == Seq::<LineView>::empty(),
    decreases node.libs.len() - i,
{
    if i < node.libs.len() {
        let lib = node.libs[i as int];
        assert(quiet_at_depth_limit(w, s, node, i));
        let d = disposition(
            node.canonical,
            s.ignore_prefixes,
            s.include_system_dependencies,
            visited,
            lib,
        );
        match d {
            Disposition::Resolving => {
                let marked = visited.insert(lib);
                let paths = places(s, node, i);
                let found = settle(w, s, node, i, paths, 0, marked);
                if exists|j: int| 0 <= j < i && node.libs[j] == lib {
                    let j = choose|j: int| 0 <= j < i && node.libs[j] == lib;
                    assert(visited.contains(node.libs[j]));
                }
                let hit = first_hit(w, paths, 0);
                assert(hit < paths.len());
                assert(marked.union(found.visited) =~= marked);
                assert forall|x: Seq<char>| marked.contains(x) implies #[trigger] known_before(
                    node,
                    i + 1,
                    x,
                ) by {
                    if x == lib {
                        assert(node.libs[i as int] == x);
                    } else {
                        lemma_known_later(node, i, x);
                    }
                }
                lemma_quiet_at_depth_limit(w, s, node, i + 1, marked);
                lemma_printed_probes(paths, 0, hit + 1);
                lemma_printed_concat(found.events, expand(w, s, node, i + 1, marked).events);
            },
            Disposition::DuplicateMarked => {
                assert(known_before(node, i, lib));
                assert(s.exclude_all_duplicates);
                assert forall|x: Seq<char>| visited.contains(x) implies #[trigger] known_before(
                    node,
                    i + 1,
                    x,
                ) by {
                    lemma_known_later(node, i, x);
                }
                lemma_quiet_at_depth_limit(w, s, node, i + 1, visited);
                assert(Seq::<Event>::empty() + expand(w, s, node, i + 1, visited).events
                    =~= expand(w, s, node, i + 1, visited).events);
            },
            _ => {
                assert forall|x: Seq<char>| visited.contains(x) implies #[trigger] known_before(
                    node,
                    i + 1,
                    x,
                ) by {
                    lemma_known_later(node, i, x);
                }
                lemma_quiet_at_depth_limit(w, s, node, i + 1, visited);
            },
        }
    }
}

/// Whether `x` is the name that `node` is listed under or one of its first
/// `i` references.
spec fn known_before(node: Node, i: nat, x: Seq<char>) -> bool {
    x == node.canonical || exists|j: int| 0 <= j < i && #[trigger] node.libs[j] == x
}

proof fn lemma_known_later(node: Node, i: nat, x: Seq<char>)
    requires
        known_before(node, i, x),
    ensures
        known_before(node, i + 1, x),
{
    if x != node.canonical {
        let j = choose|j: int| 0 <= j < i && #[trigger] node.libs[j] == x;
        assert(node.libs[j] == x);
    }
}

/// With a maximum depth of 0 the root is the only binary that is loaded, and
/// its header the only header.
pub proof fn law_depth_zero_loads_root_only(
    w: World,
    s: Settings,
    root: Seq<char>,
)
    requires
        s.max_depth == 0,
    ensures
        forall|k: int|
            0 < k < tree(w, s, root).events.len() ==> match (#[trigger] tree(w, s, root).events[k]) {
                Event::Load(_) => false,
                Event::Probe(_) => true,
                Event::Print(line) => line.depth == 0 && (line.kind == LineKind::Header ==> k == 1),
            },
{
    match w.load(root) {
        Err(_) => {},
        Ok(binary) => {
            let node = node_of(root, root, 0, binary);
            law_depth_limit_is_kept(w, s, node, 0, set![root]);
            let inner = expand(w, s, node, 0, set![root]).events;
            assert forall|k: int| 0 < k < tree(w, s, root).events.len() implies match (
            #[trigger] tree(w, s, root).events[k]) {
                Event::Load(_) => false,
                Event::Probe(_) => true,
                Event::Print(line) => line.depth == 0 && (line.kind == LineKind::Header ==> k
                    == 1),
            } by {
                if k >= 2 {
                    assert(tree(w, s, root).events[k] == inner[k - 2]);
                }
            }
        },
    }
}

/// With a maximum depth of 0 only the header of the root is printed, however
/// many references the root records, provided that each of them is quiet at
/// the depth limit: a reference that repeats an earlier one still gives its
/// marker, and one that is found nowhere still gives its warning.
pub proof fn law_depth_zero_prints_header_only(
    w: World,
    s: Settings,
    root: Seq<char>,
    binary: BinaryView,
)
    requires
        s.max_depth == 0,
        w.load(root) == Ok::<BinaryView, LoadErrorView>(binary),
        forall|k: nat|
            k < binary.libs.len() ==> quiet_at_depth_limit(
                w,
                s,
                node_of(root, root, 0, binary),
                k,
            ),
    ensures
        printed(tree(w, s, root).events) == seq![
            LineView { depth: 0, kind: LineKind::Header, name: root },
        ],
        tree(w, s, root).failure is None,
{
    let node = node_of(root, root, 0, binary);
    let inner = expand(w, s, node, 0, set![root]);
    lemma_quiet_at_depth_limit(w, s, node, 0, set![root]);
    law_depth_limit_is_kept(w, s, node, 0, set![root]);
    let head = seq![Event::Load(root), Event::Print(header(node))];
    lemma_printed_concat(head, inner.events);
    let first = seq![Event::Load(root)];
    assert(first.drop_last() =~= Seq::<Event>::empty());
    assert(printed(first.drop_last()) =~= Seq::<LineView>::empty());
    assert(printed(first) =~= Seq::<LineView>::empty());
    assert(head.drop_last() =~= first);
    assert(printed(head) =~= seq![header(node)]);
}

/// Whether every line that `events` print lies at a depth from `low` to
/// `high`.
pub open spec fn within_depths(events: Seq<Event>, low: nat, high: nat) -> bool {
    forall|k: int|
        0 <= k < events.len() ==> match (#[trigger] events[k]) {
            Event::Print(line) => low <= line.depth <= high,
            _ => true,
        }
}

proof fn lemma_within_depths_concat(a: Seq<Event>, b: Seq<Event>, low: nat, mid: nat, high: nat)
    requires
        low <= mid,
        within_depths(a, low, high),
        within_depths(b, mid, high),
    ensures
        within_depths(a + b, low, high),
{
    assert forall|k: int| 0 <= k < (a + b).len() implies match (#[trigger] (a + b)[k]) {
        Event::Print(line) => low <= line.depth <= high,
        _ => true,
    } by {
        if k < a.len() {
            assert((a + b)[k] == a[k]);
        } else {
            assert((a + b)[k] == b[k - a.len()]);
        }
    }
}

/// The traversal never goes below the maximum depth: every line printed for
/// the references of a binary lies between that binary's depth and the
/// maximum.
pub proof fn law_expand_keeps_depth_bound(
    w: World,
    s: Settings,
    node: Node,
    i: nat,
    visited: Set<Seq<char>>,
)
    requires
        node.depth <= s.max_depth,
    ensures
        within_depths(expand(w, s, node, i, visited).events, node.depth, s.max_depth),
    decreases s.max_depth - node.depth, 0nat, node.libs.len() - i, 1nat,
{
    if i < node.libs.len() {
        let lib = node.libs[i as int];
        match disposition(
            node.canonical,
            s.ignore_prefixes,
            s.include_system_dependencies,
            visited,
            lib,
        ) {
            Disposition::Resolving => {
                let marked = visited.insert(lib);
                let found = settle(w, s, node, i, places(s, node, i), 0, marked);
                law_settle_keeps_depth_bound(w, s, node, i, places(s, node, i), 0, marked);
                if found.failure is None {
                    let onward = marked.union(found.visited);
                    law_expand_keeps_depth_bound(w, s, node, i + 1, onward);
                    lemma_within_depths_concat(
                        found.events,
                        expand(w, s, node, i + 1, onward).events,
                        node.depth,
                        node.depth,
                        s.max_depth,
                    );
                }
            },
            Disposition::DuplicateMarked => {
                law_expand_keeps_depth_bound(w, s, node, i + 1, visited);
                lemma_within_depths_concat(
                    duplicate_events(s, node, lib),
                    expand(w, s, node, i + 1, visited).events,
                    node.depth,
                    node.depth,
                    s.max_depth,
                );
            },
            _ => {
                law_expand_keeps_depth_bound(w, s, node, i + 1, visited);
            },
        }
    }
}

/// The lines printed while one reference is resolved lie between the depth of
/// the binary that records it and the maximum.
pub proof fn law_settle_keeps_depth_bound(
    w: World,
    s: Settings,
    node: Node,
    i: nat,
    paths: Seq<Seq<char>>,
    from: nat,
    visited: Set<Seq<char>>,
)
    requires
        node.depth <= s.max_depth,
    ensures
        within_depths(settle(w, s, node, i, paths, from, visited).events, node.depth, s.max_depth),
    decreases s.max_depth - node.depth, 0nat, node.libs.len() - i, 0nat,
{
    let hit = first_hit(w, paths, from);
    if hit < paths.len() && node.depth + 1 <= s.max_depth {
        law_enter_keeps_depth_bound(
            w,
            s,
            paths[hit as int],
            node.libs[i as int],
            node.depth + 1,
            visited,
        );
        lemma_within_depths_concat(
            probes(paths, from, hit + 1),
            enter(w, s, paths[hit as int], node.libs[i as int], node.depth + 1, visited).events,
            node.depth,
            node.depth + 1,
            s.max_depth,
        );
    }
}

/// The lines printed for a binary and everything below it lie between its
/// depth and the maximum.
pub proof fn law_enter_keeps_depth_bound(
    w: World,
    s: Settings,
    actual: Seq<char>,
    canonical: Seq<char>,
    depth: nat,
    visited: Set<Seq<char>>,
)
    requires
        depth <= s.max_depth,
    ensures
        within_depths(enter(w, s, actual, canonical, depth, visited).events, depth, s.max_depth),
    decreases s.max_depth - depth, 1nat, 0nat, 0nat,
{
    match w.load(actual) {
        Err(_) => {},
        Ok(binary) => {
            let node = node_of(actual, canonical, depth, binary);
            law_expand_keeps_depth_bound(w, s, node, 0, visited);
            lemma_within_depths_concat(
                seq![Event::Load(actual), Event::Print(header(node))],
                expand(w, s, node, 0, visited).events,
                depth,
                depth,
                s.max_depth,
            );
        },
    }
}

/// No line of a traversal lies below the maximum depth.
pub proof fn law_depth_never_exceeds_bound(w: World, s: Settings, root: Seq<char>)
    ensures
        within_depths(tree(w, s, root).events, 0, s.max_depth),
{
    law_enter_keeps_depth_bound(w, s, root, root, 0, set![root]);
}

/// Resolution takes the first candidate location that exists and looks no
/// further: the locations before it are probed and found missing, it is
/// probed, and none after it is. The binary there is entered, unless that
/// would exceed the maximum depth.
pub proof fn law_first_existing_candidate_wins(
    w: World,
    s: Settings,
    node: Node,
    i: nat,
    paths: Seq<Seq<char>>,
    visited: Set<Seq<char>>,
)
    requires
        first_hit(w, paths, 0) < paths.len(),
    ensures
        ({
            let hit = first_hit(w, paths, 0);
            let found = settle(w, s, node, i, paths, 0, visited);
            &&& w.present.contains(paths[hit as int])
            &&& forall|k: int| 0 <= k < hit ==> !w.present.contains(#[trigger] paths[k])
            &&& found.events == if node.depth + 1 <= s.max_depth {
                probes(paths, 0, hit + 1) + enter(
                    w,
                    s,
                    paths[hit as int],
                    node.libs[i as int],
                    node.depth + 1,
                    visited,
                ).events
            } else {
                probes(paths, 0, hit + 1)
            }
        }),
{
    lemma_first_hit(w, paths, 0);
}

proof fn lemma_first_hit(w: World, paths: Seq<Seq<char>>, from: nat)
    requires
        first_hit(w, paths, from) < paths.len(),
    ensures
        from <= first_hit(w, paths, from),
        w.present.contains(paths[first_hit(w, paths, from) as int]),
        forall|k: int|
            from <= k < first_hit(w, paths, from) ==> !w.present.contains(#[trigger] paths[k]),
    decreases paths.len() - from,
{
    if from < paths.len() && !w.present.contains(paths[from as int]) {
        lemma_first_hit(w, paths, from + 1);
    }
}

} // verus!
