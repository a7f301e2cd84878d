//! The traversal as a machine that asks for one thing at a time.
//!
//! A `Walker` holds the binaries between the root and the one being listed.
//! It never touches the file system: it asks its caller to load a file or to
//! test a path, and is told the answer, upon which it hands back the lines to
//! print and asks for the next thing. The caller does what is asked, in order,
//! until the walker has finished or aborted.

use vstd::prelude::*;
use vstd::string::*;
use crate::filters::{classify, disposition, Disposition};
use crate::loader::{Binary, BinaryView, LoadError, LoadErrorView};
use crate::paths::{candidates, get_potential_paths};
use crate::refinement::{follows_tree, gives_load, gives_probe, lemma_step};
use crate::report::{Line, LineKind, LineView};
use crate::text::{lemma_views_push, opt_view, views};
use crate::tree::{duplicate_line, header, node_of, not_found_line, Node, Settings, World};

verus! {

/// The settings of a traversal.
#[derive(Clone, Debug, PartialEq, Eq)]
pub struct Config {
    /// The depth below which no binary is entered; the root is at depth 0.
    pub max_depth: usize,
    /// References that start with one of these are left out.
    pub ignore_prefixes: Vec<String>,
    /// Whether a reference met before is left out rather than marked.
    pub exclude_all_duplicates: bool,
    /// Whether system libraries are followed.
    pub include_system_dependencies: bool,
    /// The directory of an extracted system image, if there is one.
    pub system_root: Option<String>,
}

impl View for Config {
    type V = Settings;

    open spec fn view(&self) -> Settings {
        Settings {
            max_depth: self.max_depth as nat,
            ignore_prefixes: views(self.ignore_prefixes@),
            exclude_all_duplicates: self.exclude_all_duplicates,
            include_system_dependencies: self.include_system_dependencies,
            system_root: opt_view(self.system_root),
        }
    }
}

/// What a walker asks of its caller next.
#[derive(Clone, Debug, PartialEq, Eq)]
pub enum Request {
    /// Read and parse the file at this path, and report with `loaded`.
    Load(String),
    /// Test whether this path exists, and report with `probed`.
    Probe(String),
    /// Nothing: the traversal is complete.
    Finished,
    /// Nothing: a file could not be loaded, and the traversal is over.
    Aborted(LoadError),
}

/// A request as a mathematical value.
pub enum RequestView {
    Load(Seq<char>),
    Probe(Seq<char>),
    Finished,
    Aborted(LoadErrorView),
}

impl View for Request {
    type V = RequestView;

    open spec fn view(&self) -> RequestView {
        match self {
            Request::Load(path) => RequestView::Load(path@),
            Request::Probe(path) => RequestView::Probe(path@),
            Request::Finished => RequestView::Finished,
            Request::Aborted(e) => RequestView::Aborted(e@),
        }
    }
}

/// A binary on the way from the root to the one being listed: the reference
/// of it that is under resolution, that reference's candidate locations, and
/// the candidate that is being tested or loaded.
pub struct FrameView {
    pub node: Node,
    pub index: nat,
    pub candidates: Seq<Seq<char>>,
    pub probe: nat,
}

/// The state of a walker: the binaries from the root down, the references met
/// so far, and what the caller has been asked.
pub struct WalkerView {
    pub settings: Settings,
    pub root: Seq<char>,
    pub frames: Seq<FrameView>,
    pub visited: Set<Seq<char>>,
    pub pending: RequestView,
}

/// What one answer leads to: the new stack and visited set, the lines to
/// print, and the next request.
pub struct Progress {
    pub frames: Seq<FrameView>,
    pub visited: Set<Seq<char>>,
    pub lines: Seq<LineView>,
    pub pending: RequestView,
}

/// `p`, with `lines` printed first.
pub open spec fn said(lines: Seq<LineView>, p: Progress) -> Progress {
    Progress { lines: lines + p.lines, ..p }
}

/// The state that `p` leaves a walker in.
pub open spec fn moved(state: WalkerView, p: Progress) -> WalkerView {
    WalkerView { frames: p.frames, visited: p.visited, pending: p.pending, ..state }
}

/// The stack with its last binary turned to its next reference.
pub open spec fn bumped(frames: Seq<FrameView>) -> Seq<FrameView> {
    frames.update(
        frames.len() - 1,
        FrameView { index: frames.last().index + 1, ..frames.last() },
    )
}

/// The frame of a binary that has just been loaded.
pub open spec fn fresh_frame(node: Node) -> FrameView {
    FrameView { node, index: 0, candidates: Seq::empty(), probe: 0 }
}

/// What the walker does, without asking anything, from the reference that the
/// last binary of the stack is turned to: it passes over filtered references,
/// marks duplicates, leaves a binary whose references are used up for the
/// next reference of the one above, and stops at the first reference that has
/// to be looked for, or when nothing is left.
pub open spec fn advance(s: Settings, frames: Seq<FrameView>, visited: Set<Seq<char>>) -> Progress
    decreases
            frames.len(),
            (if frames.len() > 0 {
                frames.last().node.libs.len() - frames.last().index
            } else {
                0
            }),
{
    if frames.len() == 0 {
        Progress { frames, visited, lines: Seq::empty(), pending: RequestView::Finished }
    } else {
        let top = frames.last();
        if top.index >= top.node.libs.len() {
            let rest = frames.drop_last();
            if rest.len() == 0 {
                Progress {
                    frames: rest,
                    visited,
                    lines: Seq::empty(),
                    pending: RequestView::Finished,
                }
            } else {
                advance(s, bumped(rest), visited)
            }
        } else {
            let lib = top.node.libs[top.index as int];
            match disposition(
                top.node.canonical,
                s.ignore_prefixes,
                s.include_system_dependencies,
                visited,
                lib,
            ) {
                Disposition::SelfFiltered => advance(s, bumped(frames), visited),
                Disposition::IgnoreFiltered => advance(s, bumped(frames), visited),
                Disposition::SystemFiltered => advance(s, bumped(frames), visited),
                Disposition::DuplicateMarked => if s.exclude_all_duplicates {
                    advance(s, bumped(frames), visited)
                } else {
                    said(seq![duplicate_line(top.node, lib)], advance(s, bumped(frames), visited))
                },
                Disposition::Resolving => {
                    let paths = candidates(s.system_root, top.node.actual, lib, top.node.rpaths);
                    if paths.len() == 0 {
                        said(
                            seq![not_found_line(top.node, lib)],
                            advance(s, bumped(frames), visited.insert(lib)),
                        )
                    } else {
                        Progress {
                            frames: frames.update(
                                frames.len() - 1,
                                FrameView { candidates: paths, probe: 0, ..top },
                            ),
                            visited: visited.insert(lib),
                            lines: Seq::empty(),
                            pending: RequestView::Probe(paths[0]),
                        }
                    }
                },
            }
        }
    }
}

/// What the answer to a probe leads to. A path that exists is loaded, unless
/// that would exceed the maximum depth; one that does not gives way to the
/// next candidate, and after the last to a warning.
pub open spec fn after_probe(state: WalkerView, exists: bool) -> Progress {
    let top = state.frames.last();
    if exists {
        if top.node.depth + 1 <= state.settings.max_depth {
            Progress {
                frames: state.frames,
                visited: state.visited,
                lines: Seq::empty(),
                pending: RequestView::Load(top.candidates[top.probe as int]),
            }
        } else {
            advance(state.settings, bumped(state.frames), state.visited)
        }
    } else if top.probe + 1 < top.candidates.len() {
        Progress {
            frames: state.frames.update(
                state.frames.len() - 1,
                FrameView { probe: top.probe + 1, ..top },
            ),
            visited: state.visited,
            lines: Seq::empty(),
            pending: RequestView::Probe(top.candidates[top.probe as int + 1]),
        }
    } else {
        said(
            seq![not_found_line(top.node, top.node.libs[top.index as int])],
            advance(state.settings, bumped(state.frames), state.visited),
        )
    }
}

/// The binary that a pending load is for: the root, or the candidate under
/// test of the last binary of the stack, listed under the reference that led
/// to it.
pub open spec fn awaited(state: WalkerView, binary: BinaryView) -> Node {
    if state.frames.len() == 0 {
        node_of(state.root, state.root, 0, binary)
    } else {
        let top = state.frames.last();
        node_of(
            top.candidates[top.probe as int],
            top.node.libs[top.index as int],
            top.node.depth + 1,
            binary,
        )
    }
}

/// What the answer to a load leads to: the end of everything for a failure,
/// and otherwise the header of the binary, then its references.
pub open spec fn after_load(state: WalkerView, result: Result<BinaryView, LoadErrorView>) -> Progress {
    match result {
        Err(e) => Progress {
            frames: state.frames,
            visited: state.visited,
            lines: Seq::empty(),
            pending: RequestView::Aborted(e),
        },
        Ok(binary) => {
            let node = awaited(state, binary);
            said(
                seq![header(node)],
                advance(state.settings, state.frames.push(fresh_frame(node)), state.visited),
            )
        },
    }
}

/// A reference that a walker passed over without looking for it, and the
/// filter that decided so: the ignored prefixes or the exclusion of system
/// libraries.
#[derive(Clone, Debug, PartialEq, Eq)]
pub struct Passed {
    pub name: String,
    pub by: Disposition,
}

/// A reference passed over, as a mathematical value.
pub struct PassedView {
    pub name: Seq<char>,
    pub by: Disposition,
}

impl View for Passed {
    type V = PassedView;

    open spec fn view(&self) -> PassedView {
        PassedView { name: self.name@, by: self.by }
    }
}

/// The views of a sequence of references passed over.
pub open spec fn passed_views(items: Seq<Passed>) -> Seq<PassedView> {
    Seq::new(items.len(), |i: int| items[i]@)
}

/// The references that `advance` passes over by the ignored prefixes or by
/// the exclusion of system libraries, in the order in which it meets them.
pub open spec fn passed_over(
    s: Settings,
    frames: Seq<FrameView>,
    visited: Set<Seq<char>>,
) -> Seq<PassedView>
    decreases
            frames.len(),
            (if frames.len() > 0 {
                frames.last().node.libs.len() - frames.last().index
            } else {
                0
            }),
{
    if frames.len() == 0 {
        Seq::empty()
    } else {
        let top = frames.last();
        if top.index >= top.node.libs.len() {
            let rest = frames.drop_last();
            if rest.len() == 0 {
                Seq::empty()
            } else {
                passed_over(s, bumped(rest), visited)
            }
        } else {
            let lib = top.node.libs[top.index as int];
            match disposition(
                top.node.canonical,
                s.ignore_prefixes,
                s.include_system_dependencies,
                visited,
                lib,
            ) {
                Disposition::SelfFiltered => passed_over(s, bumped(frames), visited),
                Disposition::IgnoreFiltered => seq![
                    PassedView { name: lib, by: Disposition::IgnoreFiltered },
                ] + passed_over(s, bumped(frames), visited),
                Disposition::SystemFiltered => seq![
                    PassedView { name: lib, by: Disposition::SystemFiltered },
                ] + passed_over(s, bumped(frames), visited),
                Disposition::DuplicateMarked => passed_over(s, bumped(frames), visited),
                Disposition::Resolving => if candidates(
                    s.system_root,
                    top.node.actual,
                    lib,
                    top.node.rpaths,
                ).len() == 0 {
                    passed_over(s, bumped(frames), visited.insert(lib))
                } else {
                    Seq::empty()
                },
            }
        }
    }
}

/// The references passed over upon the answer to a probe.
pub open spec fn passed_after_probe(state: WalkerView, exists: bool) -> Seq<PassedView> {
    let top = state.frames.last();
    if exists && top.node.depth + 1 <= state.settings.max_depth {
        Seq::empty()
    } else if !exists && top.probe + 1 < top.candidates.len() {
        Seq::empty()
    } else {
        passed_over(state.settings, bumped(state.frames), state.visited)
    }
}

/// The references passed over upon the answer to a load.
pub open spec fn passed_after_load(
    state: WalkerView,
    result: Result<BinaryView, LoadErrorView>,
) -> Seq<PassedView> {
    match result {
        Err(_) => Seq::empty(),
        Ok(binary) => passed_over(
            state.settings,
            state.frames.push(fresh_frame(awaited(state, binary))),
            state.visited,
        ),
    }
}

/// The state in which a traversal starts: the root is to be loaded, and its
/// name counts as met.
pub open spec fn initial(settings: Settings, root: Seq<char>) -> WalkerView {
    WalkerView {
        settings,
        root,
        frames: Seq::empty(),
        visited: set![root],
        pending: RequestView::Load(root),
    }
}

/// Whether a frame is turned to one of its references, under test at one of
/// its candidates.
pub open spec fn engaged(frame: FrameView) -> bool {
    frame.index < frame.node.libs.len() && frame.probe < frame.candidates.len()
}

/// Whether a stack is in order: each binary lies one level below the one
/// before, none below the maximum depth, and each but the last is turned to
/// the reference that led to the next.
pub open spec fn stack_ok(s: Settings, frames: Seq<FrameView>) -> bool {
    forall|k: int|
        0 <= k < frames.len() ==> {
            &&& (#[trigger] frames[k]).node.depth == k
            &&& k <= s.max_depth
            &&& frames[k].index <= frames[k].node.libs.len()
            &&& k < frames.len() - 1 ==> frames[k].index < frames[k].node.libs.len()
        }
}

/// Whether a state is in order: its stack is, and what is pending is what the
/// last binary of the stack is waiting for.
pub open spec fn consistent(state: WalkerView) -> bool {
    &&& stack_ok(state.settings, state.frames)
    &&& match state.pending {
        RequestView::Probe(path) => {
            &&& state.frames.len() > 0
            &&& engaged(state.frames.last())
            &&& path == state.frames.last().candidates[state.frames.last().probe as int]
        },
        RequestView::Load(path) => if state.frames.len() == 0 {
            path == state.root
        } else {
            &&& engaged(state.frames.last())
            &&& path == state.frames.last().candidates[state.frames.last().probe as int]
            &&& state.frames.last().node.depth + 1 <= state.settings.max_depth
        },
        RequestView::Finished => true,
        RequestView::Aborted(_) => true,
    }
}

/// The views of a sequence of lines.
pub open spec fn line_views(lines: Seq<Line>) -> Seq<LineView> {
    Seq::new(lines.len(), |i: int| lines[i]@)
}

/// The view of the answer to a load.
pub open spec fn result_view(result: Result<Binary, LoadError>) -> Result<BinaryView, LoadErrorView> {
    match result {
        Ok(binary) => Ok(binary@),
        Err(e) => Err(e@),
    }
}

/// A binary on the walker's stack.
struct Frame {
    actual: String,
    canonical: String,
    depth: usize,
    libs: Vec<String>,
    rpaths: Vec<String>,
    index: usize,
    candidates: Vec<String>,
    probe: usize,
}

impl View for Frame {
    type V = FrameView;

    closed spec fn view(&self) -> FrameView {
        FrameView {
            node: Node {
                actual: self.actual@,
                canonical: self.canonical@,
                depth: self.depth as nat,
                libs: views(self.libs@),
                rpaths: views(self.rpaths@),
            },
            index: self.index as nat,
            candidates: views(self.candidates@),
            probe: self.probe as nat,
        }
    }
}

spec fn frame_views(frames: Seq<Frame>) -> Seq<FrameView> {
    Seq::new(frames.len(), |i: int| frames[i]@)
}

spec fn visited_set(visited: Seq<String>) -> Set<Seq<char>> {
    views(visited).to_set()
}

proof fn lemma_visited_push(v: Seq<String>, s: String)
    ensures
        visited_set(v.push(s)) == visited_set(v).insert(s@),
{
    lemma_views_push(v, s);
    let a = views(v);
    let b = a.push(s@);
    assert forall|x: Seq<char>| b.contains(x) <==> (a.contains(x) || x == s@) by {
        if b.contains(x) {
            let i = choose|i: int| 0 <= i < b.len() && b[i] == x;
            if i < a.len() {
                assert(a[i] == x);
            }
        }
        if a.contains(x) {
            let i = choose|i: int| 0 <= i < a.len() && a[i] == x;
            assert(b[i] == x);
        }
        if x == s@ {
            assert(b[a.len() as int] == x);
        }
    }
    assert(visited_set(v.push(s)) =~= visited_set(v).insert(s@));
}

proof fn lemma_lines_push(lines: Seq<Line>, line: Line)
    ensures
        line_views(lines.push(line)) == line_views(lines) + seq![line@],
{
    assert(line_views(lines.push(line)) =~= line_views(lines) + seq![line@]);
}

proof fn lemma_said_twice(a: Seq<LineView>, b: Seq<LineView>, p: Progress)
    ensures
        said(a, said(b, p)) == said(a + b, p),
        said(Seq::empty(), p) == p,
{
    assert(a + (b + p.lines) =~= (a + b) + p.lines);
    assert(Seq::<LineView>::empty() + p.lines =~= p.lines);
}

/// A traversal in progress.
pub struct Walker {
    config: Config,
    root: String,
    frames: Vec<Frame>,
    visited: Vec<String>,
    pending: Request,
    passed: Vec<Passed>,
}

impl View for Walker {
    type V = WalkerView;

    closed spec fn view(&self) -> WalkerView {
        WalkerView {
            settings: self.config@,
            root: self.root@,
            frames: frame_views(self.frames@),
            visited: visited_set(self.visited@),
            pending: self.pending@,
        }
    }
}

impl Walker {
    /// Whether the walker's state is in order.
    pub open spec fn wf(&self) -> bool {
        consistent(self@)
    }

    /// The references that the last step passed over.
    pub closed spec fn noted(&self) -> Seq<PassedView> {
        passed_views(self.passed@)
    }

    /// A walker for the tree of the binary at `root`. It asks for the root to
    /// be loaded.
    pub fn new(config: Config, root: String) -> (w: Walker)
        ensures
            w.wf(),
            w@ == initial(config@, root@),
            w.noted() == Seq::<PassedView>::empty(),
    {
        let pending = Request::Load(root.clone());
        let mut visited: Vec<String> = Vec::new();
        let name = root.clone();
        proof {
            lemma_visited_push(visited@, name);
            assert(visited_set(visited@) =~= Set::<Seq<char>>::empty());
        }
        visited.push(name);
        let w = Walker { config, root, frames: Vec::new(), visited, pending, passed: Vec::new() };
        assert(w.noted() =~= Seq::<PassedView>::empty());
        assert(w@.frames =~= Seq::<FrameView>::empty());
        assert(w@.visited =~= set![root@]);
        w
    }

    /// What the caller is asked to do next.
    pub fn pending(&self) -> (r: &Request)
        ensures
            r@ == self@.pending,
    {
        &self.pending
    }

    /// The references that the last step passed over by the ignored prefixes
    /// or by the exclusion of system libraries, in the order in which it met
    /// them. Nothing is printed for them; this is for a caller that wants to
    /// say so.
    pub fn passed_over(&self) -> (r: &Vec<Passed>)
        ensures
            passed_views(r@) == self.noted(),
    {
        &self.passed
    }

    /// Takes the answer to a pending load and gives the lines to print. For
    /// every file system that gives this answer, the step goes through the
    /// head of what remained of the traversal.
    pub fn loaded(&mut self, result: Result<Binary, LoadError>) -> (lines: Vec<Line>)
        requires
            old(self).wf(),
            old(self)@.pending is Load,
        ensures
            final(self).wf(),
            final(self)@ == moved(old(self)@, after_load(old(self)@, result_view(result))),
            line_views(lines@) == after_load(old(self)@, result_view(result)).lines,
            final(self).noted() == passed_after_load(old(self)@, result_view(result)),
            forall|w: World|
                gives_load(w, old(self)@.pending, result_view(result)) ==> #[trigger] follows_tree(
                    w,
                    old(self)@,
                    line_views(lines@),
                    final(self)@,
                ),
    {
        let mut lines: Vec<Line> = Vec::new();
        assert(line_views(lines@) =~= Seq::<LineView>::empty());
        self.passed = Vec::new();
        assert(self.noted() =~= Seq::<PassedView>::empty());
        proof {
            let before = self@;
            let p = after_load(before, result_view(result));
            assert forall|w: World|
                gives_load(w, before.pending, result_view(result)) implies #[trigger] follows_tree(
                w,
                before,
                p.lines,
                moved(before, p),
            ) by {
                lemma_step(w, before);
            }
        }
        match result {
            Err(e) => {
                self.pending = Request::Aborted(e);
            },
            Ok(binary) => {
                let ghost before = self@;
                let ghost node = awaited(before, binary@);
                let n: usize = self.frames.len();
                let frame = if n == 0 {
                    Frame {
                        actual: self.root.clone(),
                        canonical: self.root.clone(),
                        depth: 0,
                        libs: binary.libs,
                        rpaths: binary.rpaths,
                        index: 0,
                        candidates: Vec::new(),
                        probe: 0,
                    }
                } else {
                    let top = &self.frames[n - 1];
                    assert(top@ == before.frames.last());
                    Frame {
                        actual: top.candidates[top.probe].clone(),
                        canonical: top.libs[top.index].clone(),
                        depth: top.depth + 1,
                        libs: binary.libs,
                        rpaths: binary.rpaths,
                        index: 0,
                        candidates: Vec::new(),
                        probe: 0,
                    }
                };
                assert(frame@.candidates =~= Seq::<Seq<char>>::empty());
                assert(frame@ == fresh_frame(node));
                let line = Line {
                    depth: frame.depth,
                    kind: LineKind::Header,
                    name: frame.canonical.clone(),
                };
                assert(line@ == header(node));
                proof {
                    lemma_lines_push(lines@, line);
                }
                lines.push(line);
                self.frames.push(frame);
                proof {
                    assert(frame_views(self.frames@) =~= before.frames.push(fresh_frame(node)));
                    lemma_said_twice(
                        Seq::empty(),
                        seq![header(node)],
                        advance(before.settings, before.frames.push(fresh_frame(node)), before.visited),
                    );
                }
                self.advance(&mut lines);
                assert(self.noted() =~= passed_after_load(before, result_view(result)));
            },
        }
        lines
    }

    /// Takes the answer to a pending probe and gives the lines to print. For
    /// every file system that gives this answer, the step goes through the
    /// head of what remained of the traversal.
    pub fn probed(&mut self, exists: bool) -> (lines: Vec<Line>)
        requires
            old(self).wf(),
            old(self)@.pending is Probe,
        ensures
            final(self).wf(),
            final(self)@ == moved(old(self)@, after_probe(old(self)@, exists)),
            line_views(lines@) == after_probe(old(self)@, exists).lines,
            final(self).noted() == passed_after_probe(old(self)@, exists),
            forall|w: World|
                gives_probe(w, old(self)@.pending, exists) ==> #[trigger] follows_tree(
                    w,
                    old(self)@,
                    line_views(lines@),
                    final(self)@,
                ),
    {
        let mut lines: Vec<Line> = Vec::new();
        assert(line_views(lines@) =~= Seq::<LineView>::empty());
        self.passed = Vec::new();
        assert(self.noted() =~= Seq::<PassedView>::empty());
        let ghost before = self@;
        assert(engaged(before.frames.last()));
        let mut top = self.frames.pop().unwrap();
        assert(top@ == before.frames.last());
        assert(top.probe < top.candidates.len() && top.index < top.libs.len());
        assert(frame_views(self.frames@) =~= before.frames.drop_last());
        if exists && top.depth < self.config.max_depth {
            self.pending = Request::Load(top.candidates[top.probe].clone());
            self.frames.push(top);
            assert(frame_views(self.frames@) =~= before.frames);
        } else if !exists && top.probe + 1 < top.candidates.len() {
            top.probe = top.probe + 1;
            self.pending = Request::Probe(top.candidates[top.probe].clone());
            self.frames.push(top);
            assert(frame_views(self.frames@) =~= before.frames.update(
                before.frames.len() - 1,
                FrameView { probe: before.frames.last().probe + 1, ..before.frames.last() },
            ));
        } else {
            if !exists {
                let line = Line {
                    depth: top.depth,
                    kind: LineKind::NotFound,
                    name: top.libs[top.index].clone(),
                };
                proof {
                    lemma_lines_push(lines@, line);
                }
                lines.push(line);
            }
            top.index = top.index + 1;
            self.frames.push(top);
            proof {
                assert(frame_views(self.frames@) =~= bumped(before.frames));
                let rest = advance(before.settings, bumped(before.frames), before.visited);
                lemma_said_twice(Seq::empty(), line_views(lines@), rest);
                lemma_said_twice(Seq::empty(), Seq::empty(), rest);
            }
            self.advance(&mut lines);
            assert(self.noted() =~= passed_after_probe(before, exists));
        }
        proof {
            let p = after_probe(before, exists);
            assert(line_views(lines@) == p.lines);
            assert(self@ == moved(before, p));
            assert forall|w: World|
                gives_probe(w, before.pending, exists) implies #[trigger] follows_tree(
                w,
                before,
                line_views(lines@),
                self@,
            ) by {
                lemma_step(w, before);
            }
        }
        lines
    }

    /// Goes on from the reference that the last binary of the stack is turned
    /// to, until something has to be asked.
    fn advance(&mut self, lines: &mut Vec<Line>)
        requires
            stack_ok(old(self)@.settings, old(self)@.frames),
        ensures
            consistent(final(self)@),
            final(self)@ == moved(
                old(self)@,
                advance(old(self)@.settings, old(self)@.frames, old(self)@.visited),
            ),
            line_views(final(lines)@) == line_views(old(lines)@) + advance(
                old(self)@.settings,
                old(self)@.frames,
                old(self)@.visited,
            ).lines,
            final(self).noted() == old(self).noted() + passed_over(
                old(self)@.settings,
                old(self)@.frames,
                old(self)@.visited,
            ),
    {
        let ghost start = self@;
        let ghost s = self@.settings;
        let ghost notes = self.noted() + passed_over(s, start.frames, start.visited);
        let ghost goal = said(line_views(lines@), advance(s, start.frames, start.visited));
        proof {
            lemma_said_twice(Seq::empty(), line_views(lines@), advance(s, start.frames, start.visited));
        }
        loop
            invariant
                self.config@ == s,
                self.root@ == start.root,
                stack_ok(s, frame_views(self.frames@)),
                said(
                    line_views(lines@),
                    advance(s, frame_views(self.frames@), visited_set(self.visited@)),
                ) == goal,
                goal == said(line_views(old(lines)@), advance(s, start.frames, start.visited)),
                start == old(self)@,
                s == start.settings,
                notes == old(self).noted() + passed_over(s, start.frames, start.visited),
                self.noted() + passed_over(
                    s,
                    frame_views(self.frames@),
                    visited_set(self.visited@),
                ) == notes,
            decreases
                    self.frames.len(),
                    (if self.frames.len() > 0 {
                        self.frames@.last().libs.len() - self.frames@.last().index
                    } else {
                        0
                    }),
        {
            let ghost frames = frame_views(self.frames@);
            let ghost visited = visited_set(self.visited@);
            let ghost said_before = line_views(lines@);
            if self.frames.len() == 0 {
                self.pending = Request::Finished;
                assert(frame_views(self.frames@) =~= frames);
                assert(self.noted() + Seq::<PassedView>::empty() =~= self.noted());
                return ;
            }
            let mut top = self.frames.pop().unwrap();
            assert(top@ == frames.last());
            assert(frame_views(self.frames@) =~= frames.drop_last());
            if top.index >= top.libs.len() {
                if self.frames.len() == 0 {
                    self.pending = Request::Finished;
                    assert(self.noted() + Seq::<PassedView>::empty() =~= self.noted());
                    return ;
                }
                let mut parent = self.frames.pop().unwrap();
                assert(parent@ == frames[frames.len() - 2]);
                assert(parent.index < parent.libs.len());
                parent.index = parent.index + 1;
                self.frames.push(parent);
                assert(frame_views(self.frames@) =~= bumped(frames.drop_last()));
            } else {
                let d = classify(
                    top.canonical.as_str(),
                    &self.config.ignore_prefixes,
                    self.config.include_system_dependencies,
                    &self.visited,
                    top.libs[top.index].as_str(),
                );
                match d {
                    Disposition::Resolving => {
                        let lib = top.libs[top.index].clone();
                        let paths = get_potential_paths(
                            &self.config.system_root,
                            top.actual.as_str(),
                            lib.as_str(),
                            &top.rpaths,
                        );
                        proof {
                            lemma_visited_push(self.visited@, lib);
                        }
                        self.visited.push(lib);
                        if paths.len() == 0 {
                            let line = Line {
                                depth: top.depth,
                                kind: LineKind::NotFound,
                                name: top.libs[top.index].clone(),
                            };
                            proof {
                                lemma_lines_push(lines@, line);
                                lemma_said_twice(
                                    said_before,
                                    seq![line@],
                                    advance(s, bumped(frames), visited_set(self.visited@)),
                                );
                            }
                            lines.push(line);
                            top.index = top.index + 1;
                            self.frames.push(top);
                            assert(frame_views(self.frames@) =~= bumped(frames));
                        } else {
                            self.pending = Request::Probe(paths[0].clone());
                            top.candidates = paths;
                            top.probe = 0;
                            self.frames.push(top);
                            assert(frame_views(self.frames@) =~= frames.update(
                                frames.len() - 1,
                                FrameView { candidates: views(paths@), probe: 0, ..frames.last() },
                            ));
                            proof {
                                lemma_said_twice(
                                    Seq::empty(),
                                    said_before,
                                    advance(s, frames, visited),
                                );
                                assert(self.noted() + Seq::<PassedView>::empty() =~= self.noted());
                            }
                            return ;
                        }
                    },
                    Disposition::DuplicateMarked => {
                        if !self.config.exclude_all_duplicates {
                            let line = Line {
                                depth: top.depth,
                                kind: LineKind::Duplicate,
                                name: top.libs[top.index].clone(),
                            };
                            proof {
                                lemma_lines_push(lines@, line);
                                lemma_said_twice(
                                    said_before,
                                    seq![line@],
                                    advance(s, bumped(frames), visited),
                                );
                            }
                            lines.push(line);
                        }
                        top.index = top.index + 1;
                        self.frames.push(top);
                        assert(frame_views(self.frames@) =~= bumped(frames));
                    },
                    Disposition::SelfFiltered => {
                        top.index = top.index + 1;
                        self.frames.push(top);
                        assert(frame_views(self.frames@) =~= bumped(frames));
                    },
                    _ => {
                        let ghost noted_before = self.noted();
                        let note = Passed { name: top.libs[top.index].clone(), by: d };
                        self.passed.push(note);
                        top.index = top.index + 1;
                        self.frames.push(top);
                        assert(frame_views(self.frames@) =~= bumped(frames));
                        proof {
                            let rest = passed_over(s, bumped(frames), visited);
                            assert(self.noted() =~= noted_before + seq![note@]);
                            assert((noted_before + seq![note@]) + rest =~= noted_before + (seq![
                                note@,
                            ] + rest));
                        }
                    },
                }
            }
        }
    }
}

} // verus!
