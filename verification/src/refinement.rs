//! The walker does what a traversal is.
//!
//! `tree` says which events the listing of a binary's dependencies consists
//! of. The walker is a machine that is told one answer at a time. Here it is
//! proved that a walker whose answers come from a given state of the file
//! system asks, prints and ends exactly as `tree` says for that file system,
//! after finitely many answers.

use vstd::prelude::*;
use crate::filters::{disposition, Disposition};
use crate::paths::candidates;
use crate::loader::{BinaryView, LoadErrorView};
use crate::report::LineView;
use crate::tree::{
    after, duplicate_events, duplicate_line, enter, expand, first_hit, header, node_of,
    not_found_line, probes, settle, tree, Event, Node, Outcome, Settings, World,
};
use crate::walker::{
    advance, after_load, after_probe, awaited, bumped, consistent, fresh_frame, initial, moved,
    stack_ok, FrameView, Progress, RequestView, WalkerView,
};

verus! {

/// The printing of each of `lines`, in order.
pub open spec fn prints(lines: Seq<LineView>) -> Seq<Event> {
    Seq::new(lines.len(), |i: int| Event::Print(lines[i]))
}

/// The event of carrying out a request.
pub open spec fn request_events(request: RequestView) -> Seq<Event> {
    match request {
        RequestView::Load(path) => seq![Event::Load(path)],
        RequestView::Probe(path) => seq![Event::Probe(path)],
        RequestView::Finished => Seq::empty(),
        RequestView::Aborted(_) => Seq::empty(),
    }
}

/// Whether a request waits for an answer.
pub open spec fn open_request(request: RequestView) -> bool {
    request is Load || request is Probe
}

/// What remains of a traversal when the last binary of `frames` is turned to
/// a reference not yet looked at: the rest of its references, then the rest of
/// those of the binary above it, and so on up to the root.
pub open spec fn resume(
    w: World,
    s: Settings,
    frames: Seq<FrameView>,
    visited: Set<Seq<char>>,
) -> Outcome
    decreases frames.len(),
{
    if frames.len() == 0 {
        Outcome { events: Seq::empty(), visited, failure: None }
    } else {
        let top = frames.last();
        let here = expand(w, s, top.node, top.index, visited);
        if here.failure is Some || frames.len() == 1 {
            here
        } else {
            after(here.events, resume(w, s, bumped(frames.drop_last()), here.visited))
        }
    }
}

/// What remains of a traversal in a given state of the walker, the pending
/// request included.
pub open spec fn remaining(w: World, state: WalkerView) -> Outcome {
    let s = state.settings;
    match state.pending {
        RequestView::Finished => Outcome {
            events: Seq::empty(),
            visited: state.visited,
            failure: None,
        },
        RequestView::Aborted(e) => Outcome {
            events: Seq::empty(),
            visited: state.visited,
            failure: Some(e),
        },
        RequestView::Load(_) => if state.frames.len() == 0 {
            enter(w, s, state.root, state.root, 0, state.visited)
        } else {
            let top = state.frames.last();
            let child = enter(
                w,
                s,
                top.candidates[top.probe as int],
                top.node.libs[top.index as int],
                top.node.depth + 1,
                state.visited,
            );
            if child.failure is Some {
                child
            } else {
                after(
                    child.events,
                    resume(w, s, bumped(state.frames), state.visited.union(child.visited)),
                )
            }
        },
        RequestView::Probe(_) => {
            let top = state.frames.last();
            let found = settle(
                w,
                s,
                top.node,
                top.index,
                top.candidates,
                top.probe,
                state.visited,
            );
            if found.failure is Some {
                found
            } else {
                after(
                    found.events,
                    resume(w, s, bumped(state.frames), state.visited.union(found.visited)),
                )
            }
        },
    }
}

/// What the walker does when its pending request is answered as the file
/// system `w` answers it.
pub open spec fn answered(w: World, state: WalkerView) -> Progress {
    match state.pending {
        RequestView::Load(path) => after_load(state, w.load(path)),
        RequestView::Probe(path) => after_probe(state, w.present.contains(path)),
        _ => Progress {
            frames: state.frames,
            visited: state.visited,
            lines: Seq::empty(),
            pending: state.pending,
        },
    }
}

/// Whether the file system `w` gives `result` for the load that `request`
/// asks for.
pub open spec fn gives_load(
    w: World,
    request: RequestView,
    result: Result<BinaryView, LoadErrorView>,
) -> bool {
    request matches RequestView::Load(path) && w.load(path) == result
}

/// Whether the file system `w` gives `exists` for the probe that `request`
/// asks for.
pub open spec fn gives_probe(w: World, request: RequestView, exists: bool) -> bool {
    request matches RequestView::Probe(path) && w.present.contains(path) == exists
}

/// Whether a step from `before` to `after` that printed `lines` went through
/// the head of what remained of the traversal over `w`: the request that was
/// pending, then these lines, with the rest still to come.
pub open spec fn follows_tree(
    w: World,
    before: WalkerView,
    lines: Seq<LineView>,
    after: WalkerView,
) -> bool {
    &&& remaining(w, before).events == request_events(before.pending) + prints(lines) + remaining(
        w,
        after,
    ).events
    &&& remaining(w, before).failure == remaining(w, after).failure
}

/// The events of the walker's next `steps` answers from `w`, and the state
/// that they leave it in. A walker that has finished or aborted stays as it
/// is.
pub open spec fn run(w: World, state: WalkerView, steps: nat) -> (Seq<Event>, WalkerView)
    decreases steps,
{
    if steps == 0 || !open_request(state.pending) {
        (Seq::empty(), state)
    } else {
        let p = answered(w, state);
        let rest = run(w, moved(state, p), (steps - 1) as nat);
        (request_events(state.pending) + prints(p.lines) + rest.0, rest.1)
    }
}

/// The number of loads and probes among `events`.
pub open spec fn requests_in(events: Seq<Event>) -> nat
    decreases events.len(),
{
    if events.len() == 0 {
        0
    } else if events.last() is Print {
        requests_in(events.drop_last())
    } else {
        requests_in(events.drop_last()) + 1
    }
}

/// The set of references met only grows along a branch.
pub proof fn lemma_expand_grows(w: World, s: Settings, node: Node, i: nat, visited: Set<Seq<char>>)
    ensures
        visited.subset_of(expand(w, s, node, i, visited).visited),
    decreases s.max_depth - node.depth, 0nat, node.libs.len() - i, 1nat,
{
    if i < node.libs.len() {
        let lib = node.libs[i as int];
        match disposition(
            node.canonical,
            s.ignore_prefixes,
            s.include_system_dependencies,
            visited,
            lib,
        ) {
            Disposition::Resolving => {
                let marked = visited.insert(lib);
                let paths = candidates(s.system_root, node.actual, lib, node.rpaths);
                lemma_settle_grows(w, s, node, i, paths, 0, marked);
                let found = settle(w, s, node, i, paths, 0, marked);
                if found.failure is None {
                    lemma_expand_grows(w, s, node, i + 1, marked.union(found.visited));
                }
            },
            _ => {
                lemma_expand_grows(w, s, node, i + 1, visited);
            },
        }
    }
}

/// The set of references met only grows while one reference is resolved.
pub proof fn lemma_settle_grows(
    w: World,
    s: Settings,
    node: Node,
    i: nat,
    paths: Seq<Seq<char>>,
    from: nat,
    visited: Set<Seq<char>>,
)
    ensures
        visited.subset_of(settle(w, s, node, i, paths, from, visited).visited),
    decreases s.max_depth - node.depth, 0nat, node.libs.len() - i, 0nat,
{
    let hit = first_hit(w, paths, from);
    if hit < paths.len() && node.depth + 1 <= s.max_depth {
        lemma_enter_grows(w, s, paths[hit as int], node.libs[i as int], node.depth + 1, visited);
    }
}

/// The set of references met only grows while a binary is listed.
pub proof fn lemma_enter_grows(
    w: World,
    s: Settings,
    actual: Seq<char>,
    canonical: Seq<char>,
    depth: nat,
    visited: Set<Seq<char>>,
)
    ensures
        visited.subset_of(enter(w, s, actual, canonical, depth, visited).visited),
    decreases s.max_depth - depth, 1nat, 0nat, 0nat,
{
    match w.load(actual) {
        Err(_) => {},
        Ok(binary) => {
            lemma_expand_grows(w, s, node_of(actual, canonical, depth, binary), 0, visited);
        },
    }
}

proof fn lemma_prints_concat(a: Seq<LineView>, b: Seq<LineView>)
    ensures
        prints(a + b) == prints(a) + prints(b),
        prints(Seq::empty()) == Seq::<Event>::empty(),
{
    assert(prints(a + b) =~= prints(a) + prints(b));
    assert(prints(Seq::empty()) =~= Seq::<Event>::empty());
}

proof fn lemma_prints_one(line: LineView)
    ensures
        prints(seq![line]) == seq![Event::Print(line)],
{
    assert(prints(seq![line]) =~= seq![Event::Print(line)]);
}

/// The probes from `from` on start with that of candidate `from`.
proof fn lemma_probes_split(paths: Seq<Seq<char>>, from: nat, to: nat)
    requires
        from < to <= paths.len(),
    ensures
        probes(paths, from, to) == seq![Event::Probe(paths[from as int])] + probes(
            paths,
            from + 1,
            to,
        ),
        probes(paths, to, to) == Seq::<Event>::empty(),
{
    assert(probes(paths, from, to) =~= seq![Event::Probe(paths[from as int])] + probes(
        paths,
        from + 1,
        to,
    ));
    assert(probes(paths, to, to) =~= Seq::<Event>::empty());
}

proof fn lemma_first_hit_bounds(w: World, paths: Seq<Seq<char>>, from: nat)
    requires
        from <= paths.len(),
    ensures
        from <= first_hit(w, paths, from) <= paths.len(),
    decreases paths.len() - from,
{
    if from < paths.len() && !w.present.contains(paths[from as int]) {
        lemma_first_hit_bounds(w, paths, from + 1);
    }
}

/// What remains after the walker has gone on by itself is what remained
/// before, less the lines it printed on the way.
proof fn lemma_advance(w: World, state: WalkerView, frames: Seq<FrameView>, visited: Set<Seq<char>>)
    requires
        stack_ok(state.settings, frames),
    ensures
        ({
            let p = advance(state.settings, frames, visited);
            let whole = resume(w, state.settings, frames, visited);
            let rest = remaining(w, moved(state, p));
            &&& consistent(moved(state, p))
            &&& !(p.pending is Load)
            &&& !(p.pending is Aborted)
            &&& whole.events == prints(p.lines) + rest.events
            &&& whole.failure == rest.failure
            &&& whole.visited == rest.visited
        }),
    decreases
            frames.len(),
            (if frames.len() > 0 {
                frames.last().node.libs.len() - frames.last().index
            } else {
                0
            }),
{
    let s = state.settings;
    let p = advance(s, frames, visited);
    let whole = resume(w, s, frames, visited);
    let rest = remaining(w, moved(state, p));
    lemma_prints_concat(Seq::empty(), Seq::empty());
    if frames.len() == 0 {
        assert(whole.events =~= prints(p.lines) + rest.events);
    } else {
        let top = frames.last();
        if top.index >= top.node.libs.len() {
            let below = frames.drop_last();
            if below.len() == 0 {
                assert(whole.events =~= prints(p.lines) + rest.events);
            } else {
                assert(stack_ok(s, bumped(below))) by {
                    assert(below[below.len() - 1] == frames[frames.len() - 2]);
                    assert forall|k: int| 0 <= k < below.len() implies {
                        &&& (#[trigger] bumped(below)[k]).node.depth == k
                        &&& k <= s.max_depth
                        &&& bumped(below)[k].index <= bumped(below)[k].node.libs.len()
                        &&& k < below.len() - 1 ==> bumped(below)[k].index < bumped(
                            below,
                        )[k].node.libs.len()
                    } by {
                        assert(below[k] == frames[k]);
                    }
                }
                lemma_advance(w, state, bumped(below), visited);
                let inner = resume(w, s, bumped(below), visited);
                assert(whole.events =~= inner.events);
            }
        } else {
            let lib = top.node.libs[top.index as int];
            let d = disposition(
                top.node.canonical,
                s.ignore_prefixes,
                s.include_system_dependencies,
                visited,
                lib,
            );
            let next = bumped(frames);
            assert(next.drop_last() =~= frames.drop_last());
            assert(stack_ok(s, next)) by {
                assert forall|k: int| 0 <= k < next.len() implies {
                    &&& (#[trigger] next[k]).node.depth == k
                    &&& k <= s.max_depth
                    &&& next[k].index <= next[k].node.libs.len()
                    &&& k < next.len() - 1 ==> next[k].index < next[k].node.libs.len()
                } by {
                    assert(frames[k].node.depth == k);
                }
            }
            match d {
                Disposition::Resolving => {
                    let marked = visited.insert(lib);
                    let paths = candidates(s.system_root, top.node.actual, lib, top.node.rpaths);
                    let found = settle(w, s, top.node, top.index, paths, 0, marked);
                    if paths.len() == 0 {
                        assert(marked.union(found.visited) =~= marked);
                        lemma_advance(w, state, next, marked);
                        lemma_prints_one(not_found_line(top.node, lib));
                        lemma_prints_concat(
                            seq![not_found_line(top.node, lib)],
                            advance(s, next, marked).lines,
                        );
                        let inner = resume(w, s, next, marked);
                        assert(found.events =~= seq![Event::Print(not_found_line(top.node, lib))]);
                        assert(whole.events =~= found.events + inner.events);
                    } else {
                        let turned = frames.update(
                            frames.len() - 1,
                            FrameView { candidates: paths, probe: 0, ..top },
                        );
                        assert(stack_ok(s, turned)) by {
                            assert forall|k: int| 0 <= k < turned.len() implies {
                                &&& (#[trigger] turned[k]).node.depth == k
                                &&& k <= s.max_depth
                                &&& turned[k].index <= turned[k].node.libs.len()
                                &&& k < turned.len() - 1 ==> turned[k].index
                                    < turned[k].node.libs.len()
                            } by {
                                assert(frames[k].node.depth == k);
                            }
                        }
                        assert(bumped(turned).drop_last() =~= frames.drop_last());
                        if found.failure is None {
                            let onward = marked.union(found.visited);
                            let here = expand(w, s, top.node, top.index + 1, onward);
                            let inner = resume(w, s, bumped(turned), onward);
                            assert(bumped(turned).last().node == top.node);
                            assert(bumped(turned).last().index == top.index + 1);
                            if here.failure is Some || frames.len() == 1 {
                                assert(inner == here);
                                assert(whole.events =~= found.events + inner.events);
                            } else {
                                let above = resume(w, s, bumped(frames.drop_last()), here.visited);
                                assert(inner == after(here.events, above));
                                assert(whole.events =~= found.events + inner.events);
                            }
                        }
                        assert(whole.events =~= prints(p.lines) + rest.events);
                    }
                },
                Disposition::DuplicateMarked => {
                    lemma_advance(w, state, next, visited);
                    let inner = resume(w, s, next, visited);
                    lemma_prints_one(duplicate_line(top.node, lib));
                    lemma_prints_concat(
                        seq![duplicate_line(top.node, lib)],
                        advance(s, next, visited).lines,
                    );
                    assert(whole.events =~= duplicate_events(s, top.node, lib) + inner.events);
                    assert(whole.events =~= prints(p.lines) + rest.events);
                },
                _ => {
                    lemma_advance(w, state, next, visited);
                    let inner = resume(w, s, next, visited);
                    assert(whole.events =~= inner.events);
                },
            }
        }
    }
}

/// One answer from the file system takes the walker through the head of what
/// remains: the pending request, then the lines that it prints upon the
/// answer. What remains afterwards is the tail.
pub proof fn lemma_step(w: World, state: WalkerView)
    requires
        consistent(state),
        open_request(state.pending),
    ensures
        ({
            let p = answered(w, state);
            let next = moved(state, p);
            &&& consistent(next)
            &&& remaining(w, state).events == request_events(state.pending) + prints(p.lines)
                + remaining(w, next).events
            &&& remaining(w, state).failure == remaining(w, next).failure
        }),
{
    let s = state.settings;
    let p = answered(w, state);
    let next = moved(state, p);
    let frames = state.frames;
    let visited = state.visited;
    lemma_prints_concat(Seq::empty(), Seq::empty());
    match state.pending {
        RequestView::Probe(path) => {
            let top = frames.last();
            let lib = top.node.libs[top.index as int];
            let paths = top.candidates;
            let found = settle(w, s, top.node, top.index, paths, top.probe, visited);
            let turned = bumped(frames);
            assert(stack_ok(s, turned)) by {
                assert forall|k: int| 0 <= k < turned.len() implies {
                    &&& (#[trigger] turned[k]).node.depth == k
                    &&& k <= s.max_depth
                    &&& turned[k].index <= turned[k].node.libs.len()
                    &&& k < turned.len() - 1 ==> turned[k].index < turned[k].node.libs.len()
                } by {
                    assert(frames[k].node.depth == k);
                }
            }
            lemma_probes_split(paths, top.probe, (top.probe + 1) as nat);
            if w.present.contains(path) {
                assert(first_hit(w, paths, top.probe) == top.probe);
                if top.node.depth + 1 <= s.max_depth {
                    let child = enter(w, s, path, lib, top.node.depth + 1, visited);
                    assert(remaining(w, state).events =~= seq![Event::Probe(path)] + remaining(
                        w,
                        next,
                    ).events);
                } else {
                    assert(visited.union(found.visited) =~= visited);
                    lemma_advance(w, state, turned, visited);
                    let inner = resume(w, s, turned, visited);
                    assert(remaining(w, state).events =~= seq![Event::Probe(path)]
                        + inner.events);
                }
            } else {
                assert(first_hit(w, paths, top.probe) == first_hit(
                    w,
                    paths,
                    (top.probe + 1) as nat,
                ));
                lemma_first_hit_bounds(w, paths, (top.probe + 1) as nat);
                let hit = first_hit(w, paths, top.probe);
                if top.probe + 1 < paths.len() {
                    let shifted = frames.update(
                        frames.len() - 1,
                        FrameView { probe: top.probe + 1, ..top },
                    );
                    assert(stack_ok(s, shifted)) by {
                        assert forall|k: int| 0 <= k < shifted.len() implies {
                            &&& (#[trigger] shifted[k]).node.depth == k
                            &&& k <= s.max_depth
                            &&& shifted[k].index <= shifted[k].node.libs.len()
                            &&& k < shifted.len() - 1 ==> shifted[k].index
                                < shifted[k].node.libs.len()
                        } by {
                            assert(frames[k].node.depth == k);
                        }
                    }
                    let later = settle(
                        w,
                        s,
                        top.node,
                        top.index,
                        paths,
                        (top.probe + 1) as nat,
                        visited,
                    );
                    if hit >= paths.len() {
                        lemma_probes_split(paths, top.probe, paths.len());
                    } else {
                        lemma_probes_split(paths, top.probe, hit + 1);
                    }
                    assert(found.events =~= seq![Event::Probe(path)] + later.events);
                    assert(found.failure == later.failure);
                    assert(found.visited == later.visited);
                    assert(bumped(shifted).drop_last() =~= turned.drop_last());
                    assert(bumped(shifted).last().node == turned.last().node);
                    assert(bumped(shifted).last().index == turned.last().index);
                    let onward = visited.union(found.visited);
                    assert(resume(w, s, bumped(shifted), onward) == resume(w, s, turned, onward));
                    assert(remaining(w, state).events =~= seq![Event::Probe(path)] + remaining(
                        w,
                        next,
                    ).events);
                } else {
                    assert(hit == paths.len());
                    assert(visited.union(found.visited) =~= visited);
                    lemma_advance(w, state, turned, visited);
                    let inner = resume(w, s, turned, visited);
                    lemma_prints_one(not_found_line(top.node, lib));
                    lemma_prints_concat(
                        seq![not_found_line(top.node, lib)],
                        advance(s, turned, visited).lines,
                    );
                    assert(found.events =~= seq![
                        Event::Probe(path),
                        Event::Print(not_found_line(top.node, lib)),
                    ]);
                    assert(remaining(w, state).events =~= found.events + inner.events);
                    assert(remaining(w, state).events =~= seq![Event::Probe(path)] + prints(
                        p.lines,
                    ) + remaining(w, next).events);
                }
            }
        },
        RequestView::Load(path) => {
            match w.load(path) {
                Err(e) => {
                    assert(remaining(w, state).events =~= seq![Event::Load(path)] + remaining(
                        w,
                        next,
                    ).events);
                },
                Ok(binary) => {
                    let node = awaited(state, binary);
                    let pushed = frames.push(fresh_frame(node));
                    assert(pushed.drop_last() =~= frames);
                    assert(stack_ok(s, pushed)) by {
                        assert forall|k: int| 0 <= k < pushed.len() implies {
                            &&& (#[trigger] pushed[k]).node.depth == k
                            &&& k <= s.max_depth
                            &&& pushed[k].index <= pushed[k].node.libs.len()
                            &&& k < pushed.len() - 1 ==> pushed[k].index
                                < pushed[k].node.libs.len()
                        } by {
                            if k < frames.len() {
                                assert(frames[k].node.depth == k);
                            }
                        }
                    }
                    lemma_advance(w, state, pushed, visited);
                    let inner = resume(w, s, pushed, visited);
                    let here = expand(w, s, node, 0, visited);
                    lemma_expand_grows(w, s, node, 0, visited);
                    assert(visited.union(here.visited) =~= here.visited);
                    lemma_prints_one(header(node));
                    lemma_prints_concat(seq![header(node)], advance(s, pushed, visited).lines);
                    assert(remaining(w, state).events =~= seq![
                        Event::Load(path),
                        Event::Print(header(node)),
                    ] + inner.events);
                    assert(remaining(w, state).events =~= seq![Event::Load(path)] + prints(
                        p.lines,
                    ) + remaining(w, next).events);
                },
            }
        },
        _ => {},
    }
}

proof fn lemma_requests_concat(a: Seq<Event>, b: Seq<Event>)
    ensures
        requests_in(a + b) == requests_in(a) + requests_in(b),
    decreases b.len(),
{
    if b.len() == 0 {
        assert(a + b =~= a);
    } else {
        assert((a + b).drop_last() =~= a + b.drop_last());
        lemma_requests_concat(a, b.drop_last());
    }
}

proof fn lemma_requests_prints(lines: Seq<LineView>)
    ensures
        requests_in(prints(lines)) == 0,
    decreases lines.len(),
{
    if lines.len() > 0 {
        assert(prints(lines).drop_last() =~= prints(lines.drop_last()));
        lemma_requests_prints(lines.drop_last());
    }
}

/// A walker that is answered by the file system `w` comes to an end, after as
/// many answers as what remains holds loads and probes. On the way it asks and
/// prints exactly what remains, and it ends aborted with the failure of what
/// remains, or finished where there is none. Further answers change nothing.
pub proof fn lemma_run(w: World, state: WalkerView, steps: nat)
    requires
        consistent(state),
        steps >= requests_in(remaining(w, state).events),
    ensures
        run(w, state, steps).0 == remaining(w, state).events,
        match remaining(w, state).failure {
            Some(e) => run(w, state, steps).1.pending == RequestView::Aborted(e),
            None => run(w, state, steps).1.pending == RequestView::Finished,
        },
    decreases steps,
{
    if open_request(state.pending) {
        lemma_step(w, state);
        let p = answered(w, state);
        let next = moved(state, p);
        let asked = request_events(state.pending);
        lemma_requests_concat(asked + prints(p.lines), remaining(w, next).events);
        lemma_requests_concat(asked, prints(p.lines));
        lemma_requests_prints(p.lines);
        assert(asked.len() == 1 && !(asked.last() is Print));
        assert(asked.drop_last() =~= Seq::<Event>::empty());
        assert(requests_in(asked.drop_last()) == 0);
        assert(requests_in(asked) == 1);
        lemma_run(w, next, (steps - 1) as nat);
    }
}

/// The walker lists the tree: started on `root` and answered by the file
/// system `w`, it asks and prints, in order, exactly the events of
/// `tree(w, settings, root)`, and after as many answers as these hold loads and
/// probes it has finished, or aborted with the failure that ends the tree.
pub proof fn theorem_walker_lists_tree(w: World, settings: Settings, root: Seq<char>)
    ensures
        ({
            let whole = tree(w, settings, root);
            let end = run(w, initial(settings, root), requests_in(whole.events));
            &&& consistent(initial(settings, root))
            &&& end.0 == whole.events
            &&& match whole.failure {
                Some(e) => end.1.pending == RequestView::Aborted(e),
                None => end.1.pending == RequestView::Finished,
            }
        }),
{
    let whole = tree(w, settings, root);
    lemma_run(w, initial(settings, root), requests_in(whole.events));
}

} // verus!
