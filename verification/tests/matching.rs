use path_match::{Error, PathMatch, PathMatchBuilder};

#[test]
fn basic_syntax() -> Result<(), Error> {
    let path = r"foo|bar|hmm|hello|";
    for separator in ["/", "\\"] {
        let path = path.replace("|", separator);
        let pattern = PathMatch::from_pattern(".////foo/*/*/hel*o/", separator)?;
        assert!(pattern.matches(&path));
    }
    Ok(())
}

#[test]
fn star() -> Result<(), Error> {
    let path = r"foo|bar|hmm|hello|";
    for separator in ["/", "\\"] {
        let path = &path.replace("|", separator);

        let pattern = PathMatch::from_pattern("./*", separator)?;
        assert!(!pattern.matches(path));

        let pattern = PathMatch::from_pattern("./*/*", separator)?;
        assert!(!pattern.matches(path));

        let pattern = PathMatch::from_pattern("./*/*/*", separator)?;
        assert!(!pattern.matches(path));

        let pattern = PathMatch::from_pattern("./*/*/*/*", separator)?;
        assert!(pattern.matches(path));
    }

    Ok(())
}

#[test]
fn root() -> Result<(), Error> {
    for pattern in ["/", "/./", "/.", "/////", "///./."] {
        let pattern = PathMatch::from_pattern(pattern, "/")?;
        assert!(pattern.matches("/"));
        assert!(!pattern.matches("./"));
    }
    Ok(())
}

#[test]
fn cwd() -> Result<(), Error> {
    // Dot is not necessarily a folder
    for pattern in [".", "././././.", ".////."] {
        let pattern = PathMatch::from_pattern(pattern, "/")?;
        assert!(pattern.matches("."));
        assert!(pattern.matches("./"));
        assert!(!pattern.matches("/"));
        assert!(!pattern.matches("/."));
        assert!(!pattern.matches("/./"));
    }

    // Dot is a folder
    for pattern in ["./", "./././"] {
        let pattern = PathMatch::from_pattern(pattern, "/")?;
        assert!(pattern.matches("./"));
        assert!(!pattern.matches("."));
        assert!(!pattern.matches("/"));
        assert!(!pattern.matches("/."));
        assert!(!pattern.matches("/./"));
    }
    Ok(())
}

#[test]
fn file_path() -> Result<(), Error> {
    for pattern in ["hello", "./hello", "././hello"] {
        let pattern = PathMatch::from_pattern(pattern, "/")?;
        assert!(pattern.matches("hello"));
    }
    Ok(())
}

#[test]
fn prefix_matching() -> Result<(), Error> {
    let pattern = "hello/there/friend";
    for separator in ["/", "\\"] {
        let pattern = PathMatch::from_pattern(pattern, separator)?;
        for path in [
            ".",
            ".|",
            "hello",
            "hello|",
            "hello|there",
            "hello|there|",
            "hello|there|friend",
            "hello|there|friend|",
        ] {
            let path = path.replace("|", separator);
            assert!(pattern.matches_prefix(&path));
        }
    }
    Ok(())
}

#[test]
fn max_depth() -> Result<(), Error> {
    for (pattern, depth) in [
        (".", 0),
        ("./", 0),
        ("./*", 1),
        ("./*/", 1),
        ("./././", 0),
        ("*/*/*/", 3),
        ("./hello/", 1),
        ("./*/*", 2),
    ] {
        let pattern_1 = PathMatch::from_pattern(pattern, "/")?;
        let pattern_2 = {
            let mut builder = PathMatchBuilder::new("/");
            builder.add_pattern(pattern)?;
            builder.build()?
        };
        assert_eq!(pattern_1.max_depth(), depth);
        assert_eq!(pattern_2.max_depth(), depth);
    }
    Ok(())
}

#[test]
fn multiple_builder_patterns() -> Result<(), Error> {
    let mut builder = PathMatchBuilder::new("/");
    for pattern in [
        "./a",
        "./b/",
        "a/b/c/d/e",
        "./b/foo*",
        "./b/bar",
        "./b/test*pattern",
        "./b/test*pattern/final",
        "./c",
        "./c/",
    ] {
        builder.add_pattern(pattern)?;
    }
    let pattern = builder.build()?;

    // These should match
    for path in [
        "a",
        "a/",
        "b/",
        "a/b/c/d/e",
        "b/foobar",
        "b/foocar",
        "b/bar",
        "b/test_wildcard_pattern",
        "b/test_wildcard_pattern/final",
        "c",
        "c/",
    ] {
        assert!(pattern.matches(path));
    }

    // These should not
    for path in ["b", "a/b/c/d", "b/folbar", "b/barfoo", "b/tes_attern"] {
        assert!(!pattern.matches(path));
    }

    // These should prefix-match
    for path in [
        "b",
        "a/b/c",
        "a/b/c/",
        "b/test_wildcard_pattern",
        "b/test_wildcard_pattern/",
    ] {
        assert!(pattern.matches_prefix(path));
    }

    Ok(())
}

#[test]
fn no_patterns_match_nothing() -> Result<(), Error> {
    let builder = PathMatchBuilder::new("/");
    let pattern = builder.build()?;
    assert!(!pattern.matches("non_empty"));
    assert!(!pattern.matches(""));
    assert!(!pattern.matches("/"));
    Ok(())
}

#[test]
fn multiple_wildcard() -> Result<(), Error> {
    let pattern = PathMatch::from_pattern("*/*", r"\")?;
    assert!(!pattern.matches(r"."));
    assert!(!pattern.matches(r"hello"));
    assert!(pattern.matches(r"hello\there"));
    assert!(!pattern.matches(r"hello\there\friend"));
    Ok(())
}

#[test]
fn single_wildcard() -> Result<(), Error> {
    let pattern = PathMatch::from_pattern("*", r"\")?;
    assert!(!pattern.matches(r"."));
    assert!(pattern.matches(r".hello"));
    assert!(pattern.matches(r"hello"));
    Ok(())
}

#[test]
fn wildcard_matches_dot_in_middle() -> Result<(), Error> {
    let pattern = PathMatch::from_pattern("hello*there", r"\")?;
    assert!(pattern.matches(r"hello.there"));
    Ok(())
}
