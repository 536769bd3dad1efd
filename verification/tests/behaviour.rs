use path_match::normalize::normalized;
use path_match::tokenizer::StringComponentIter;
use path_match::{Error, PathMatch, PathMatchBuilder};

fn depth_of(path: &str) -> usize {
    let components = normalized(StringComponentIter::new(path, "/"));
    components.iter().map(|component| component.traversal_depth()).sum()
}

#[test]
fn literal_patterns_match_their_own_text() {
    for pattern in [
        ".",
        "./",
        "/",
        "",
        "a",
        "a/",
        "/a/b",
        "a//b/./c",
        "hello/there/friend/",
        "././x",
        "...",
        "é/→",
    ] {
        let matcher = PathMatch::from_pattern(pattern, "/").unwrap();
        assert!(matcher.matches(pattern), "pattern {:?}", pattern);
    }
}

#[test]
fn truncating_a_match_gives_a_prefix_match() {
    let mut builder = PathMatchBuilder::new("/");
    for pattern in ["a/b/c/d", "x/*/z/", "/r/s", "."] {
        builder.add_pattern(pattern).unwrap();
    }
    let matcher = builder.build().unwrap();
    for (full, prefixes) in [
        ("a/b/c/d", vec!["", ".", "a", "a/", "a/b", "a/b/", "a/b/c", "a/b/c/", "a/b/c/d"]),
        ("x/y/z/", vec!["x", "x/", "x/y", "x/y/", "x/y/z", "x/y/z/"]),
        ("/r/s", vec!["/", "/r", "/r/", "/r/s"]),
        (".", vec![".", "./", ""]),
        ("a/q/../b/c/d", vec!["a", "a/b", "a/b/c"]),
    ] {
        assert!(matcher.matches(full), "path {:?}", full);
        for prefix in prefixes {
            assert!(matcher.matches_prefix(prefix), "prefix {:?} of {:?}", prefix, full);
        }
    }
    assert!(!matcher.matches_prefix("a/c"));
    assert!(!matcher.matches_prefix("b"));
    assert!(!matcher.matches_prefix("a/b/c/d/e"));
}

#[test]
fn prefixes_consist_of_whole_components() {
    let matcher = PathMatch::from_pattern("first/second/third", "/").unwrap();
    assert!(matcher.matches_prefix("first/second"));
    assert!(!matcher.matches_prefix("first/sec"));
}

#[test]
fn max_depth_examples() {
    assert_eq!(PathMatch::from_pattern("*/*/*", "/").unwrap().max_depth(), 3);
    assert_eq!(PathMatch::from_pattern(".", "/").unwrap().max_depth(), 0);
    assert_eq!(PathMatch::from_pattern("./hello/", "/").unwrap().max_depth(), 1);
    assert_eq!(PathMatch::from_pattern("/", "/").unwrap().max_depth(), 1);
    assert_eq!(PathMatch::from_pattern("/a/b", "/").unwrap().max_depth(), 3);
}

#[test]
fn max_depth_is_that_of_the_deepest_pattern() {
    let mut builder = PathMatchBuilder::new("/");
    assert_eq!(PathMatchBuilder::new("/").build().unwrap().max_depth(), 0);
    for pattern in ["a", "a/b/c", "x/y"] {
        builder.add_pattern(pattern).unwrap();
    }
    assert_eq!(builder.build().unwrap().max_depth(), 3);
}

#[test]
fn empty_builder_matches_nothing() {
    for separator in ["/", "\\", "::"] {
        let matcher = PathMatchBuilder::new(separator).build().unwrap();
        for path in ["non_empty", "", "/", ".", "./", "a/b", "..", "*"] {
            assert!(!matcher.matches(path), "path {:?}", path);
        }
        assert_eq!(matcher.max_depth(), 0);
    }
}

#[test]
fn empty_builder_still_has_the_current_directory_as_prefix() {
    let matcher = PathMatchBuilder::new("/").build().unwrap();
    assert!(matcher.matches_prefix("."));
    assert!(matcher.matches_prefix("./"));
    assert!(!matcher.matches_prefix("a"));
}

#[test]
fn wildcard_component_examples() {
    let matcher = PathMatch::from_pattern("a*b", "/").unwrap();
    assert!(matcher.matches("aXXb"));
    assert!(matcher.matches("ab"));
    assert!(!matcher.matches("a"));
    assert!(!matcher.matches("b"));
    // The wildcard never spans a separator.
    assert!(!matcher.matches("a/b"));
    assert!(!matcher.matches("aX/Xb"));
    assert!(matcher.matches("aX\\Xb"));
}

#[test]
fn compiling_twice_gives_the_same_answers() {
    for pattern in ["./a/*/c", "x*y/", "/", "."] {
        let first = PathMatch::from_pattern(pattern, "/").unwrap();
        let second = PathMatch::from_pattern(pattern, "/").unwrap();
        let third = first.clone();
        assert_eq!(first.max_depth(), second.max_depth());
        assert_eq!(first.max_depth(), third.max_depth());
        for path in ["a/b/c", "a/b", "a", "xy", "xzy/", "/", ".", "./", "", "a/b/c/d", "../a"] {
            assert_eq!(first.matches(path), second.matches(path));
            assert_eq!(first.matches_prefix(path), second.matches_prefix(path));
            assert_eq!(first.matches(path), third.matches(path));
            assert_eq!(first.matches_prefix(path), third.matches_prefix(path));
        }
    }
}

#[test]
fn four_wildcards_need_four_components() {
    let matcher = PathMatch::from_pattern("./*/*/*/*", "/").unwrap();
    assert!(matcher.matches("foo/bar/hmm/hello/"));
    assert!(!matcher.matches("foo/bar/hmm"));
}

#[test]
fn root_pattern_matches_the_root_only() {
    let matcher = PathMatch::from_pattern("/", "/").unwrap();
    assert!(matcher.matches("/"));
    assert!(!matcher.matches("./"));
}

#[test]
fn unfinished_path_matches_as_prefix_only() {
    let matcher = PathMatch::from_pattern("hello/there/friend", "/").unwrap();
    assert!(matcher.matches_prefix("hello/there"));
    assert!(!matcher.matches("hello/there"));
    assert!(matcher.matches("hello/there/friend"));
}

#[test]
fn builder_merges_its_patterns() {
    let mut builder = PathMatchBuilder::new("/");
    for pattern in ["./a", "./b/", "a/b/c/d/e", "./b/foo*", "./b/bar"] {
        builder.add_pattern(pattern).unwrap();
    }
    let matcher = builder.build().unwrap();
    assert!(matcher.matches("b/foobar"));
    assert!(!matcher.matches("b"));
    assert!(matcher.matches_prefix("b"));
    assert!(matcher.matches("a/b/c/d/e"));
}

#[test]
fn unresolved_parents_match_nothing() {
    let matcher = PathMatch::from_pattern("*/*", "/").unwrap();
    assert!(!matcher.matches("../a"));
    assert!(matcher.matches("x/../a/b"));
    assert!(!matcher.matches("a/b/.."));
}

#[test]
fn from_pattern_reports_parent_traversals() {
    assert!(matches!(PathMatch::from_pattern("a/../b", "/"), Err(Error::NoParents)));
}

#[test]
fn from_pattern_reports_misplaced_wildcards() {
    match PathMatch::from_pattern("a/x*y*z", "/") {
        Err(Error::WildcardPosition { component }) => assert_eq!(component, "x*y*z"),
        other => panic!("unexpected result: {:?}", other.map(|_| ())),
    }
}

#[test]
fn a_failed_addition_leaves_the_builder_as_it_was() {
    let mut builder = PathMatchBuilder::new("/");
    builder.add_pattern("a").unwrap();
    assert!(matches!(builder.add_pattern("b/.."), Err(Error::NoParents)));
    assert!(matches!(builder.add_pattern("c**"), Err(Error::WildcardPosition { .. })));
    let matcher = builder.build().unwrap();
    assert!(matcher.matches("a"));
    assert!(!matcher.matches("b"));
    assert!(!matcher.matches("c"));
    assert_eq!(matcher.max_depth(), 1);
}

#[test]
fn the_path_separator_is_chosen_at_run_time() {
    let matcher = PathMatch::from_pattern("a/b", "::").unwrap();
    assert!(matcher.matches("a::b"));
    assert!(matcher.matches("a::b::"));
    assert!(!matcher.matches("a/b"));
}

#[test]
fn matches_stay_within_the_greatest_depth() {
    let mut builder = PathMatchBuilder::new("/");
    for pattern in ["a/*/c", "x*", "/r", "./d/"] {
        builder.add_pattern(pattern).unwrap();
    }
    let matcher = builder.build().unwrap();
    assert_eq!(matcher.max_depth(), 3);
    let mut seen: usize = 0;
    for path in [
        "a/b/c", "a/b/c/", "./a/b/c", "a/q/../b/c", "xyz", "/r", "d/", "a/b", "a", ".", "", "/",
        "a/b/c/d", "q/r/s/t/u", "d",
    ] {
        if matcher.matches(path) || matcher.matches_prefix(path) {
            assert!(depth_of(path) <= matcher.max_depth(), "path {:?}", path);
            seen += 1;
        }
    }
    assert_eq!(seen, 13);
}
