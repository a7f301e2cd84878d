use dylibtree::filters::Disposition;
use dylibtree::loader::{unreadable, Binary, Cause, LoadError};
use dylibtree::report::{Line, LineKind};
use dylibtree::walker::{Config, Passed, Request, Walker};
use std::collections::{HashMap, HashSet};

struct World {
    present: HashSet<String>,
    files: HashMap<String, Binary>,
}

struct Run {
    text: Vec<String>,
    lines: Vec<Line>,
    probes: Vec<String>,
    loads: Vec<String>,
    failure: Option<LoadError>,
}

fn binary(libs: &[&str], rpaths: &[&str]) -> Binary {
    Binary {
        libs: libs.iter().map(|s| s.to_string()).collect(),
        rpaths: rpaths.iter().map(|s| s.to_string()).collect(),
        platforms: Vec::new(),
    }
}

fn world(files: &[(&str, Binary)], others: &[&str]) -> World {
    let mut w = World { present: HashSet::new(), files: HashMap::new() };
    for (path, b) in files {
        w.present.insert(path.to_string());
        w.files.insert(path.to_string(), b.clone());
    }
    for path in others {
        w.present.insert(path.to_string());
    }
    w
}

fn config(max_depth: usize) -> Config {
    Config {
        max_depth,
        ignore_prefixes: Vec::new(),
        exclude_all_duplicates: false,
        include_system_dependencies: true,
        system_root: None,
    }
}

fn run(w: &World, config: Config, root: &str) -> Run {
    let mut walker = Walker::new(config, root.to_string());
    let mut out =
        Run { text: Vec::new(), lines: Vec::new(), probes: Vec::new(), loads: Vec::new(), failure: None };
    for _ in 0..10_000 {
        let lines = match walker.pending().clone() {
            Request::Load(path) => {
                out.loads.push(path.clone());
                let answer = match w.files.get(&path) {
                    Some(b) => Ok(b.clone()),
                    None => Err(unreadable(&path, "cannot be read")),
                };
                walker.loaded(answer)
            }
            Request::Probe(path) => {
                out.probes.push(path.clone());
                walker.probed(w.present.contains(&path))
            }
            Request::Finished => return out,
            Request::Aborted(e) => {
                out.failure = Some(e);
                return out;
            }
        };
        for line in lines {
            out.text.push(line.render());
            out.lines.push(line);
        }
    }
    panic!("the walker did not come to an end");
}

#[test]
fn binary_without_references_prints_its_header_only() {
    let w = world(&[("/bin/app", binary(&[], &[]))], &[]);
    let r = run(&w, config(10), "/bin/app");
    assert_eq!(r.text, vec!["/bin/app:"]);
    assert_eq!(r.loads, vec!["/bin/app"]);
    assert!(r.probes.is_empty());
    assert!(r.failure.is_none());
}

#[test]
fn own_identity_is_never_printed_or_probed() {
    let w = world(&[("/lib/libA.dylib", binary(&["/lib/libA.dylib", "self"], &[]))], &[]);
    let r = run(&w, config(10), "/lib/libA.dylib");
    assert_eq!(r.text, vec!["/lib/libA.dylib:"]);
    assert!(r.probes.is_empty());
}

#[test]
fn tree_is_listed_depth_first_with_indentation() {
    let w = world(
        &[
            ("/bin/app", binary(&["self", "/lib/a", "/lib/b"], &[])),
            ("/lib/a", binary(&["/lib/a", "/lib/c"], &[])),
            ("/lib/b", binary(&["/lib/b"], &[])),
            ("/lib/c", binary(&["/lib/c"], &[])),
        ],
        &[],
    );
    let r = run(&w, config(10), "/bin/app");
    assert_eq!(r.text, vec!["/bin/app:", "  /lib/a:", "    /lib/c:", "  /lib/b:"]);
    assert_eq!(r.loads, vec!["/bin/app", "/lib/a", "/lib/c", "/lib/b"]);
    assert_eq!(r.probes, vec!["/lib/a", "/lib/c", "/lib/b"]);
}

#[test]
fn cycle_terminates_with_a_duplicate_marker() {
    let w = world(
        &[("/a", binary(&["self", "/b"], &[])), ("/b", binary(&["/b", "/a"], &[]))],
        &[],
    );
    let r = run(&w, config(100), "/a");
    assert_eq!(r.text, vec!["/a:", "  /b:", "    /a"]);
    assert_eq!(r.loads, vec!["/a", "/b"]);
    assert_eq!(r.probes, vec!["/b"]);
    let markers: Vec<&Line> = r.lines.iter().filter(|l| l.kind == LineKind::Duplicate).collect();
    assert_eq!(markers.len(), 1);
    assert_eq!((markers[0].name.as_str(), markers[0].depth), ("/a", 1));
    assert!(r.failure.is_none());
    let mut quiet = config(100);
    quiet.exclude_all_duplicates = true;
    assert_eq!(run(&w, quiet, "/a").text, vec!["/a:", "  /b:"]);
}

#[test]
fn root_under_another_name_is_listed_again() {
    let w = world(
        &[("./a", binary(&["self", "/b"], &[])), ("/b", binary(&["/b", "/a"], &[])), ("/a", binary(&["/a", "/b"], &[]))],
        &[],
    );
    let r = run(&w, config(100), "./a");
    assert_eq!(r.text, vec!["./a:", "  /b:", "    /a:", "      /b"]);
    assert_eq!(r.loads, vec!["./a", "/b", "/a"]);
}

#[test]
fn cycle_below_the_root_is_cut_at_the_back_reference() {
    let w = world(
        &[
            ("/r", binary(&["self", "/a"], &[])),
            ("/a", binary(&["/a", "/b"], &[])),
            ("/b", binary(&["/b", "/a"], &[])),
        ],
        &[],
    );
    let r = run(&w, config(100), "/r");
    assert_eq!(r.text, vec!["/r:", "  /a:", "    /b:", "      /a"]);
    assert_eq!(r.loads, vec!["/r", "/a", "/b"]);
    assert_eq!(r.probes, vec!["/a", "/b"]);
}

#[test]
fn diamond_marks_the_second_meeting() {
    let w = world(
        &[
            ("/app", binary(&["/l", "/r"], &[])),
            ("/l", binary(&["/l", "/shared"], &[])),
            ("/r", binary(&["/r", "/shared"], &[])),
            ("/shared", binary(&["/shared"], &[])),
        ],
        &[],
    );
    let r = run(&w, config(100), "/app");
    assert_eq!(r.text, vec!["/app:", "  /l:", "    /shared:", "  /r:", "    /shared"]);
    assert_eq!(r.loads, vec!["/app", "/l", "/shared", "/r"]);
}

#[test]
fn depth_zero_prints_the_root_header_only() {
    let w = world(
        &[
            ("/app", binary(&["self", "/a", "/b", "/c"], &[])),
            ("/a", binary(&["/a", "/b"], &[])),
            ("/b", binary(&["/b"], &[])),
            ("/c", binary(&["/c"], &[])),
        ],
        &[],
    );
    let r = run(&w, config(0), "/app");
    assert_eq!(r.text, vec!["/app:"]);
    assert_eq!(r.loads, vec!["/app"]);
    assert_eq!(r.probes, vec!["/a", "/b", "/c"]);
}

#[test]
fn depth_zero_still_warns_and_marks() {
    let w = world(&[("/app", binary(&["/a", "/gone", "/a"], &[]))], &["/a"]);
    let r = run(&w, config(0), "/app");
    assert_eq!(r.text, vec!["/app:", "  /gone: warning: not found", "  /a"]);
    assert_eq!(r.loads, vec!["/app"]);
    let mut quiet = config(0);
    quiet.exclude_all_duplicates = true;
    assert_eq!(run(&w, quiet, "/app").text, vec!["/app:", "  /gone: warning: not found"]);
}

#[test]
fn depth_limit_stops_expansion() {
    let w = world(
        &[
            ("/app", binary(&["/a"], &[])),
            ("/a", binary(&["/a", "/b"], &[])),
            ("/b", binary(&["/b", "/c"], &[])),
            ("/c", binary(&["/c"], &[])),
        ],
        &[],
    );
    assert_eq!(run(&w, config(1), "/app").text, vec!["/app:", "  /a:"]);
    assert_eq!(run(&w, config(2), "/app").text, vec!["/app:", "  /a:", "    /b:"]);
    assert_eq!(run(&w, config(2), "/app").loads, vec!["/app", "/a", "/b"]);
    assert_eq!(run(&w, config(3), "/app").text, vec!["/app:", "  /a:", "    /b:", "      /c:"]);
    assert!(run(&w, config(usize::MAX), "/app").lines.iter().all(|l| l.depth <= 3));
}

#[test]
fn ignored_reference_is_never_printed_or_probed() {
    let w = world(
        &[
            ("/app", binary(&["/opt/x/liba", "/lib/b", "/opt/x/liba"], &[])),
            ("/opt/x/liba", binary(&[], &[])),
            ("/lib/b", binary(&["/opt/y"], &[])),
        ],
        &[],
    );
    let mut c = config(10);
    c.ignore_prefixes = vec!["/opt/".to_string()];
    let r = run(&w, c, "/app");
    assert_eq!(r.text, vec!["/app:", "  /lib/b:"]);
    assert_eq!(r.probes, vec!["/lib/b"]);
    assert_eq!(r.loads, vec!["/app", "/lib/b"]);
}

#[test]
fn system_references_are_skipped_unless_included() {
    let w = world(
        &[
            ("/app", binary(&["/usr/lib/libz", "@rpath/libswiftCore.dylib", "/lib/b"], &["/r"])),
            ("/usr/lib/libz", binary(&["/usr/lib/libz", "/System/S"], &[])),
            ("/lib/b", binary(&["/lib/b"], &[])),
        ],
        &[],
    );
    let mut without = config(10);
    without.include_system_dependencies = false;
    let r = run(&w, without, "/app");
    assert_eq!(r.text, vec!["/app:", "  /lib/b:"]);
    assert_eq!(r.probes, vec!["/lib/b"]);
    let r = run(&w, config(10), "/app");
    assert_eq!(
        r.text,
        vec![
            "/app:",
            "  /usr/lib/libz:",
            "    /System/S: warning: not found",
            "  @rpath/libswiftCore.dylib: warning: not found",
            "  /lib/b:",
        ]
    );
    assert_eq!(r.probes, vec!["/usr/lib/libz", "/System/S", "/r/libswiftCore.dylib", "/lib/b"]);
}

#[test]
fn duplicates_are_marked_once_or_left_out() {
    let w = world(
        &[("/app", binary(&["/a", "/a", "/b"], &[])), ("/a", binary(&[], &[])), ("/b", binary(&["/a"], &[]))],
        &[],
    );
    let r = run(&w, config(10), "/app");
    assert_eq!(r.text, vec!["/app:", "  /a:", "  /a", "  /b:", "    /a"]);
    assert_eq!(r.loads, vec!["/app", "/a", "/b"]);
    assert_eq!(r.probes, vec!["/a", "/b"]);
    let mut c = config(10);
    c.exclude_all_duplicates = true;
    let r = run(&w, c, "/app");
    assert_eq!(r.text, vec!["/app:", "  /a:", "  /b:"]);
    assert_eq!(r.probes, vec!["/a", "/b"]);
}

#[test]
fn unresolved_reference_warns_and_goes_on() {
    let w = world(
        &[
            ("/app", binary(&["/lib/a"], &[])),
            ("/lib/a", binary(&["/F/Gone.framework/Gone", "/lib/b"], &[])),
            ("/lib/b", binary(&[], &[])),
        ],
        &[],
    );
    let r = run(&w, config(10), "/app");
    assert_eq!(
        r.text,
        vec![
            "/app:",
            "  /lib/a:",
            "    /F/Gone.framework/Gone: warning: not found",
            "    /lib/b:",
        ]
    );
    let warning = &r.lines[2];
    assert_eq!((warning.depth, warning.kind), (1, LineKind::NotFound));
    assert_eq!(
        r.probes,
        vec![
            "/lib/a",
            "/F/Gone.framework/Gone",
            "/F/Gone.framework/Versions/A/Gone",
            "/F/Gone.framework/Versions/B/Gone",
            "/F/Gone.framework/Versions/C/Gone",
            "/F/Gone.framework/Versions/D/Gone",
            "/lib/b",
        ]
    );
    assert!(r.failure.is_none());
}

#[test]
fn first_existing_candidate_wins() {
    let w = world(
        &[
            ("/a/b/MyApp", binary(&["@rpath/libFoo.dylib"], &["@executable_path/../lib", "/usr/lib", "/opt/lib"])),
            ("/usr/lib/libFoo.dylib", binary(&["@rpath/libFoo.dylib"], &[])),
        ],
        &["/opt/lib/libFoo.dylib"],
    );
    let r = run(&w, config(10), "/a/b/MyApp");
    assert_eq!(r.text, vec!["/a/b/MyApp:", "  @rpath/libFoo.dylib:"]);
    assert_eq!(r.probes, vec!["/a/b/../lib/libFoo.dylib", "/usr/lib/libFoo.dylib"]);
    assert_eq!(r.loads, vec!["/a/b/MyApp", "/usr/lib/libFoo.dylib"]);
}

#[test]
fn versioned_framework_is_found_under_the_system_root() {
    let w = world(
        &[
            ("/app", binary(&["/S/Foo.framework/Foo"], &[])),
            ("/img/S/Foo.framework/Versions/A/Foo", binary(&["/S/Foo.framework/Foo"], &[])),
        ],
        &[],
    );
    let mut c = config(10);
    c.system_root = Some("/img".to_string());
    let r = run(&w, c, "/app");
    assert_eq!(r.text, vec!["/app:", "  /S/Foo.framework/Foo:"]);
    assert_eq!(r.probes.len(), 7);
    assert_eq!(r.loads[1], "/img/S/Foo.framework/Versions/A/Foo");
}

#[test]
fn unreadable_root_aborts_before_any_line() {
    let w = world(&[], &[]);
    let r = run(&w, config(10), "/nowhere");
    assert!(r.text.is_empty());
    let e = r.failure.unwrap();
    assert_eq!((e.path.as_str(), e.cause), ("/nowhere", Cause::Unreadable));
}

#[test]
fn failing_dependency_aborts_the_whole_run() {
    let w = world(
        &[("/app", binary(&["/a", "/b"], &[])), ("/b", binary(&[], &[]))],
        &["/a"],
    );
    let r = run(&w, config(10), "/app");
    assert_eq!(r.text, vec!["/app:"]);
    assert_eq!(r.loads, vec!["/app", "/a"]);
    assert_eq!(r.probes, vec!["/a"]);
    assert_eq!(r.failure.unwrap().path, "/a");
}

#[test]
fn walker_starts_by_asking_for_the_root() {
    let walker = Walker::new(config(3), "/bin/app".to_string());
    assert_eq!(walker.pending(), &Request::Load("/bin/app".to_string()));
}

#[test]
fn lines_render_with_two_columns_per_level() {
    let line = |depth: usize, kind: LineKind| Line { depth, kind, name: "n".to_string() };
    assert_eq!(line(0, LineKind::Header).render(), "n:");
    assert_eq!(line(3, LineKind::Header).render(), "      n:");
    assert_eq!(line(0, LineKind::Duplicate).render(), "  n");
    assert_eq!(line(2, LineKind::Duplicate).render(), "      n");
    assert_eq!(line(0, LineKind::NotFound).render(), "  n: warning: not found");
    assert_eq!(line(1, LineKind::NotFound).render(), "    n: warning: not found");
}

#[test]
fn walker_tells_what_it_passed_over() {
    let mut c = config(10);
    c.ignore_prefixes = vec!["/opt/".to_string()];
    c.include_system_dependencies = false;
    let mut walker = Walker::new(c, "/app".to_string());
    assert!(walker.passed_over().is_empty());
    let root = binary(&["self", "/opt/a", "/usr/lib/b", "/lib/c", "/System/d"], &[]);
    let lines = walker.loaded(Ok(root));
    assert_eq!(lines.len(), 1);
    assert_eq!(walker.pending(), &Request::Probe("/lib/c".to_string()));
    let passed = |name: &str, by: Disposition| Passed { name: name.to_string(), by };
    assert_eq!(
        walker.passed_over(),
        &vec![
            passed("/opt/a", Disposition::IgnoreFiltered),
            passed("/usr/lib/b", Disposition::SystemFiltered),
        ]
    );
    let lines = walker.probed(false);
    assert_eq!(lines.len(), 1);
    assert_eq!(walker.pending(), &Request::Finished);
    assert_eq!(walker.passed_over(), &vec![passed("/System/d", Disposition::SystemFiltered)]);
}
