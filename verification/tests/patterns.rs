use path_match::component::PathComponent;
use path_match::matcher::compile_pattern;
use path_match::pattern::{name_to_pattern, path_to_pattern, Error, PatternComponent, StartsEndsWith};
use path_match::tokenizer::StringComponentIter;

fn literal(text: &str) -> PatternComponent {
    PatternComponent::Literal(PathComponent::Name(text.to_string()))
}

fn wildcard(prefix: &str, suffix: &str) -> PatternComponent {
    PatternComponent::StartsEndsWith(StartsEndsWith(prefix.to_string(), suffix.to_string()))
}

fn current() -> PatternComponent {
    PatternComponent::Literal(PathComponent::Current)
}

fn marker() -> PatternComponent {
    PatternComponent::Literal(PathComponent::DirectoryMarker)
}

fn root() -> PatternComponent {
    PatternComponent::Literal(PathComponent::RootName(String::new()))
}

#[test]
fn names_without_wildcard_stay_literal() {
    assert_eq!(name_to_pattern("hello".to_string()).unwrap(), literal("hello"));
    assert_eq!(name_to_pattern("?".to_string()).unwrap(), literal("?"));
}

#[test]
fn names_are_split_at_their_wildcard() {
    assert_eq!(name_to_pattern("a*b".to_string()).unwrap(), wildcard("a", "b"));
    assert_eq!(name_to_pattern("*".to_string()).unwrap(), wildcard("", ""));
    assert_eq!(name_to_pattern("*.rs".to_string()).unwrap(), wildcard("", ".rs"));
    assert_eq!(name_to_pattern("mod*".to_string()).unwrap(), wildcard("mod", ""));
    assert_eq!(name_to_pattern("é*→ü".to_string()).unwrap(), wildcard("é", "→ü"));
}

#[test]
fn names_with_two_wildcards_are_refused() {
    for name in ["**", "a*b*c", "*a*", "a**"] {
        match name_to_pattern(name.to_string()) {
            Err(Error::WildcardPosition { component }) => assert_eq!(component, name),
            other => panic!("unexpected result: {:?}", other),
        }
    }
}

#[test]
fn patterns_compile_component_by_component() {
    assert_eq!(
        compile_pattern("./foo/*/hel*o/").unwrap(),
        vec![literal("foo"), wildcard("", ""), wildcard("hel", "o"), marker()]
    );
    assert_eq!(compile_pattern("a//b").unwrap(), vec![literal("a"), literal("b")]);
    assert_eq!(compile_pattern("/a").unwrap(), vec![root(), literal("a")]);
}

#[test]
fn empty_patterns_stand_for_the_current_directory() {
    assert_eq!(compile_pattern(".").unwrap(), vec![current()]);
    assert_eq!(compile_pattern("././.").unwrap(), vec![current()]);
    assert_eq!(compile_pattern("./").unwrap(), vec![current(), marker()]);
    assert_eq!(compile_pattern("/").unwrap(), vec![root(), marker()]);
    assert_eq!(compile_pattern("").unwrap(), vec![root()]);
}

#[test]
fn patterns_are_split_on_the_forward_slash_only() {
    assert_eq!(compile_pattern("a\\b").unwrap(), vec![literal("a\\b")]);
    assert_eq!(
        path_to_pattern(StringComponentIter::new("a\\b", "\\")).unwrap(),
        vec![literal("a"), literal("b")]
    );
}

#[test]
fn parent_traversals_are_refused() {
    for pattern in ["..", "a/../b", "./..", "a/b/.."] {
        assert!(matches!(compile_pattern(pattern), Err(Error::NoParents)));
    }
}

#[test]
fn the_first_offending_component_decides_the_error() {
    match compile_pattern("a/b**c/..") {
        Err(Error::WildcardPosition { component }) => assert_eq!(component, "b**c"),
        other => panic!("unexpected result: {:?}", other),
    }
    assert!(matches!(compile_pattern("../b**c"), Err(Error::NoParents)));
}

#[test]
fn wildcard_matches_by_prefix_and_suffix() {
    let matcher = StartsEndsWith("a".to_string(), "b".to_string());
    assert!(matcher.matches("aXXb"));
    assert!(matcher.matches("ab"));
    assert!(!matcher.matches("a"));
    assert!(!matcher.matches("b"));
    assert!(!matcher.matches("ba"));
    assert!(!matcher.matches("xaXXb"));
    assert!(!matcher.matches(""));
}

#[test]
fn wildcard_prefix_and_suffix_may_overlap() {
    let matcher = StartsEndsWith("aba".to_string(), "ba".to_string());
    assert!(matcher.matches("aba"));
    assert!(matcher.matches("ababa"));
    assert!(!matcher.matches("ab"));
}

#[test]
fn bare_wildcard_matches_every_name() {
    let matcher = StartsEndsWith(String::new(), String::new());
    assert!(matcher.matches(""));
    assert!(matcher.matches("anything"));
}

#[test]
fn pattern_components_compare_by_kind_and_text() {
    assert_eq!(wildcard("a", "b"), wildcard("a", "b").clone());
    assert_ne!(wildcard("a", "b"), wildcard("a", "c"));
    assert_ne!(wildcard("a", ""), literal("a"));
    assert_eq!(literal("a"), literal("a").clone());
}

#[test]
fn errors_explain_themselves() {
    assert_eq!(Error::NoParents.to_text(), "Pattern must not contain parent traversals");
    let error = Error::WildcardPosition { component: "a**".to_string() };
    assert_eq!(error.to_text(), "Only one wilcard allowed in component: `a**`");
}
