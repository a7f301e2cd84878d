use dylibtree::filters::{classify, is_system_dependency, should_ignore, Disposition};
use dylibtree::paths::{
    framework_split, get_potential_paths, join, parent_dir, rebase, versioned_path,
};
use dylibtree::text::{chars_of, contains_text, same_text, starts_with};
use std::path::{Path, PathBuf};

fn strings(items: &[&str]) -> Vec<String> {
    items.iter().map(|s| s.to_string()).collect()
}

#[test]
fn rpath_reference_follows_search_paths_in_order() {
    let rpaths = strings(&["@executable_path/../lib", "/usr/lib"]);
    let got = get_potential_paths(&None, "/a/b/MyApp", "@rpath/libFoo.dylib", &rpaths);
    assert_eq!(got, strings(&["/a/b/../lib/libFoo.dylib", "/usr/lib/libFoo.dylib"]));
}

#[test]
fn rpath_reference_adds_rebased_variant_under_system_root() {
    let rpaths = strings(&["@executable_path/../lib", "/usr/lib"]);
    let root = Some("/cache".to_string());
    let got = get_potential_paths(&root, "/a/b/MyApp", "@rpath/libFoo.dylib", &rpaths);
    assert_eq!(
        got,
        strings(&[
            "/a/b/../lib/libFoo.dylib",
            "/cache/a/b/../lib/libFoo.dylib",
            "/usr/lib/libFoo.dylib",
            "/cache/usr/lib/libFoo.dylib",
        ])
    );
}

#[test]
fn loader_relative_search_path_is_rebased_too() {
    let rpaths = strings(&["@loader_path/Frameworks", "@executable_path/"]);
    let root = Some("/img/".to_string());
    let got = get_potential_paths(&root, "/a/b/MyApp", "@rpath/libFoo.dylib", &rpaths);
    assert_eq!(
        got,
        strings(&[
            "/a/b/Frameworks/libFoo.dylib",
            "/img/a/b/Frameworks/libFoo.dylib",
            "/a/b/libFoo.dylib",
            "/img/a/b/libFoo.dylib",
        ])
    );
    let bare = get_potential_paths(&root, "MyApp", "@rpath/libFoo.dylib", &rpaths);
    assert_eq!(bare[0], "Frameworks/libFoo.dylib");
    assert_eq!(bare[1], "/img/Frameworks/libFoo.dylib");
    let none = get_potential_paths(&None, "/a/b/MyApp", "@rpath/libFoo.dylib", &rpaths);
    assert_eq!(none, strings(&["/a/b/Frameworks/libFoo.dylib", "/a/b/libFoo.dylib"]));
}

#[test]
fn rpath_reference_without_search_paths_has_no_candidate() {
    let got = get_potential_paths(&None, "/a/b/MyApp", "@rpath/libFoo.dylib", &Vec::new());
    assert!(got.is_empty());
}

#[test]
fn framework_reference_has_five_candidates() {
    let lib = "/System/Library/Frameworks/Foo.framework/Foo";
    let got = get_potential_paths(&None, "/a/b/MyApp", lib, &strings(&["/usr/lib"]));
    assert_eq!(
        got,
        strings(&[
            "/System/Library/Frameworks/Foo.framework/Foo",
            "/System/Library/Frameworks/Foo.framework/Versions/A/Foo",
            "/System/Library/Frameworks/Foo.framework/Versions/B/Foo",
            "/System/Library/Frameworks/Foo.framework/Versions/C/Foo",
            "/System/Library/Frameworks/Foo.framework/Versions/D/Foo",
        ])
    );
}

#[test]
fn framework_reference_under_system_root_has_fifteen_candidates() {
    let lib = "/S/Foo.framework/Foo";
    let got = get_potential_paths(&Some("/img".to_string()), "/a/App", lib, &Vec::new());
    assert_eq!(
        got,
        strings(&[
            "/S/Foo.framework/Foo",
            "/S/Foo.framework/Versions/A/Foo",
            "/S/Foo.framework/Versions/B/Foo",
            "/S/Foo.framework/Versions/C/Foo",
            "/S/Foo.framework/Versions/D/Foo",
            "/img/S/Foo.framework/Foo",
            "/img/S/Foo.framework/Versions/A/Foo",
            "/img/S/Foo.framework/Versions/B/Foo",
            "/img/S/Foo.framework/Versions/C/Foo",
            "/img/S/Foo.framework/Versions/D/Foo",
            "/img/System/iOSSupport/S/Foo.framework/Foo",
            "/img/System/iOSSupport/S/Foo.framework/Versions/A/Foo",
            "/img/System/iOSSupport/S/Foo.framework/Versions/B/Foo",
            "/img/System/iOSSupport/S/Foo.framework/Versions/C/Foo",
            "/img/System/iOSSupport/S/Foo.framework/Versions/D/Foo",
        ])
    );
}

#[test]
fn plain_reference_is_left_unrewritten() {
    let got = get_potential_paths(&None, "/a/App", "/usr/lib/libz.dylib", &Vec::new());
    assert_eq!(got, strings(&["/usr/lib/libz.dylib"]));
    let rooted =
        get_potential_paths(&Some("/img/".to_string()), "/a/App", "/usr/lib/libz.dylib", &Vec::new());
    assert_eq!(
        rooted,
        strings(&[
            "/usr/lib/libz.dylib",
            "/img/usr/lib/libz.dylib",
            "/img/System/iOSSupport/usr/lib/libz.dylib",
        ])
    );
}

#[test]
fn relative_reference_is_rebased_without_failing() {
    let got = get_potential_paths(&Some("/img".to_string()), "/a/App", "libz.dylib", &Vec::new());
    assert_eq!(
        got,
        strings(&["libz.dylib", "/img/libz.dylib", "/img/System/iOSSupport/libz.dylib"])
    );
}

#[test]
fn only_the_first_framework_segment_is_rewritten() {
    let lib = "/L/Outer.framework/Frameworks/Inner.framework/Inner";
    assert_eq!(
        versioned_path(&None, lib, "A"),
        "/L/Outer.framework/Versions/A/Frameworks/Inner.framework/Inner"
    );
    assert_eq!(framework_split(lib), Some(19));
}

#[test]
fn framework_split_needs_a_name_and_a_slash() {
    assert_eq!(framework_split("/.framework/x"), None);
    assert_eq!(framework_split("/a/Foo.framework"), None);
    assert_eq!(framework_split(""), None);
    assert_eq!(framework_split("Foo.framework/"), Some(14));
    assert_eq!(framework_split("/a.framework.framework/x"), Some(23));
    assert_eq!(framework_split("/\u{e9}t\u{e9}.framework/x"), Some(15));
}

#[test]
fn versioned_path_agrees_with_the_pattern() {
    let pattern = regex::Regex::new(r"[^/]+\.framework/").unwrap();
    let samples = [
        "/System/Library/Frameworks/Foo.framework/Foo",
        "/L/Outer.framework/Frameworks/Inner.framework/Inner",
        "/usr/lib/libz.dylib",
        "/.framework/x",
        "//.framework/x",
        "/a.framework.framework/x",
        "Foo.framework/",
        "Foo.framework",
        ".framework/.framework/y",
        "x.framework/.framework/y",
        "/\u{e9}t\u{e9}.framework/\u{4e2d}",
        "@rpath/Bar.framework/Versions/A/Bar",
        "/a\n.framework/b",
        "",
        "/",
    ];
    for sample in samples {
        for version in ["A", "B", "C", "D"] {
            let replacement = format!("${{0}}Versions/{}/", version);
            let expected = pattern.replace(sample, replacement.as_str()).into_owned();
            assert_eq!(versioned_path(&None, sample, version), expected, "{:?}", sample);
        }
        let end = pattern.find(sample).map(|m| sample[..m.end()].chars().count());
        assert_eq!(framework_split(sample), end, "{:?}", sample);
    }
}

#[test]
fn versioned_path_below_a_prefix() {
    let prefix = Some("/img".to_string());
    assert_eq!(
        versioned_path(&prefix, "/S/Foo.framework/Foo", "B"),
        "/img/S/Foo.framework/Versions/B/Foo"
    );
    assert_eq!(versioned_path(&prefix, "/usr/lib/libz.dylib", "B"), "/img/usr/lib/libz.dylib");
}

#[test]
fn join_follows_the_path_rules() {
    assert_eq!(join("/a/b", "c"), "/a/b/c");
    assert_eq!(join("/a/b/", "c"), "/a/b/c");
    assert_eq!(join("/a/b", "/c"), "/c");
    assert_eq!(join("", "c"), "c");
    assert_eq!(join("/a", ""), "/a/");
    assert_eq!(join("/", "c"), "/c");
    for (base, rel) in [("/a/b", "c"), ("/a/b/", "c/d"), ("/a", "/c"), ("", "c"), ("a", "../b")] {
        let mut expected = PathBuf::from(base);
        expected.push(rel);
        assert_eq!(join(base, rel), expected.to_str().unwrap());
    }
}

#[test]
fn parent_dir_is_the_containing_directory() {
    assert_eq!(parent_dir("/a/b/MyApp"), "/a/b");
    assert_eq!(parent_dir("MyApp"), "");
    assert_eq!(parent_dir("/MyApp"), "/");
    assert_eq!(parent_dir(""), "");
    assert_eq!(parent_dir("/"), "/");
    for path in ["/a/b/MyApp", "MyApp", "/MyApp", "a/b", "/a/b/../c/d"] {
        assert_eq!(parent_dir(path), Path::new(path).parent().unwrap().to_str().unwrap());
    }
}

#[test]
fn rebase_puts_a_path_below_a_root() {
    assert_eq!(rebase("/img", "/usr/lib/x"), "/img/usr/lib/x");
    assert_eq!(rebase("/img/", "/usr/lib/x"), "/img/usr/lib/x");
    assert_eq!(rebase("/img", "usr/lib/x"), "/img/usr/lib/x");
    assert_eq!(rebase("/img", "//x"), "/x");
}

#[test]
fn text_helpers() {
    assert_eq!(chars_of("a\u{e9}b"), vec!['a', '\u{e9}', 'b']);
    assert!(starts_with("@rpath/x", "@rpath/"));
    assert!(starts_with("abc", ""));
    assert!(!starts_with("@rpat", "@rpath/"));
    assert!(!starts_with("x@rpath/", "@rpath/"));
    assert!(same_text("self", "self"));
    assert!(!same_text("self", "self2"));
    assert!(!same_text("selg", "self"));
    assert!(contains_text(&strings(&["a", "b"]), "b"));
    assert!(!contains_text(&strings(&["a", "b"]), "c"));
    assert!(!contains_text(&Vec::new(), ""));
}

#[test]
fn ignore_prefixes_match_at_the_start_only() {
    let prefixes = strings(&["/opt/", "@rpath/libQt"]);
    assert!(should_ignore("/opt/x/liba.dylib", &prefixes));
    assert!(should_ignore("@rpath/libQtCore.dylib", &prefixes));
    assert!(!should_ignore("/usr/opt/x", &prefixes));
    assert!(!should_ignore("/opt", &prefixes));
    assert!(!should_ignore("/opt/x", &Vec::new()));
}

#[test]
fn system_prefixes() {
    assert!(is_system_dependency("/usr/lib/libSystem.B.dylib"));
    assert!(is_system_dependency("/System/Library/Frameworks/Foo.framework/Foo"));
    assert!(is_system_dependency("/SystemExtras/x"));
    assert!(is_system_dependency("@rpath/libswiftCore.dylib"));
    assert!(!is_system_dependency("/usr/lib"));
    assert!(!is_system_dependency("/usr/local/lib/libx.dylib"));
    assert!(!is_system_dependency("@rpath/libFoo.dylib"));
}

#[test]
fn filters_apply_in_order() {
    let ignore = strings(&["/opt/"]);
    let visited = strings(&["/opt/seen", "/lib/seen", "/usr/lib/seen"]);
    let c = |with_system: bool, lib: &str| classify("/me", &ignore, with_system, &visited, lib);
    assert_eq!(c(false, "self"), Disposition::SelfFiltered);
    assert_eq!(c(false, "/me"), Disposition::SelfFiltered);
    assert_eq!(c(true, "/opt/seen"), Disposition::IgnoreFiltered);
    assert_eq!(c(false, "/usr/lib/seen"), Disposition::SystemFiltered);
    assert_eq!(c(true, "/usr/lib/seen"), Disposition::DuplicateMarked);
    assert_eq!(c(false, "/lib/seen"), Disposition::DuplicateMarked);
    assert_eq!(c(true, "/usr/lib/new"), Disposition::Resolving);
    assert_eq!(c(false, "/lib/new"), Disposition::Resolving);
    assert_eq!(classify("/opt/me", &ignore, true, &visited, "/opt/me"), Disposition::SelfFiltered);
}
