use path_match::component::PathComponent;
use path_match::matcher::compile_pattern;
use path_match::pattern::{PatternComponent, StartsEndsWith};
use path_match::trie::PathMatchNode;
use path_match::{PathMatch, PathMatchBuilder};

fn built(patterns: &[&str]) -> PathMatch {
    let mut builder = PathMatchBuilder::new("/");
    for pattern in patterns {
        builder.add_pattern(pattern).unwrap();
    }
    builder.build().unwrap()
}

#[test]
fn components_are_written_as_in_a_path() {
    assert_eq!(PathComponent::Current.to_text(), ".");
    assert_eq!(PathComponent::Parent.to_text(), "..");
    assert_eq!(PathComponent::DirectoryMarker.to_text(), "");
    assert_eq!(PathComponent::Name("foo".to_string()).to_text(), "foo");
    assert_eq!(PathComponent::RootName(String::new()).to_text(), "");
}

#[test]
fn wildcards_are_written_with_their_asterisk() {
    assert_eq!(StartsEndsWith("a".to_string(), "b".to_string()).to_text(), "a*b");
    assert_eq!(StartsEndsWith(String::new(), String::new()).to_text(), "*");
    let component = PatternComponent::StartsEndsWith(StartsEndsWith("x".to_string(), String::new()));
    assert_eq!(component.to_text(), "x*");
    let component = PatternComponent::Literal(PathComponent::Name("y".to_string()));
    assert_eq!(component.to_text(), "y");
}

#[test]
fn empty_trie_is_written_as_nothing() {
    assert_eq!(PathMatchNode::default().to_text(), "");
    assert_eq!(built(&[]).to_text(), "");
}

#[test]
fn single_pattern_is_written_as_a_path() {
    assert_eq!(PathMatch::from_pattern("./a/b", "/").unwrap().to_text(), "a/b$");
    assert_eq!(PathMatch::from_pattern(".", "/").unwrap().to_text(), ".$");
    assert_eq!(PathMatch::from_pattern("./", "/").unwrap().to_text(), "./$");
    assert_eq!(PathMatch::from_pattern("a/", "/").unwrap().to_text(), "a/$");
    assert_eq!(PathMatch::from_pattern("/a", "/").unwrap().to_text(), "/a$");
    assert_eq!(PathMatch::from_pattern("a/x*y/c", "/").unwrap().to_text(), "a/x*y/c$");
}

#[test]
fn alternatives_are_bracketed_and_ordered() {
    assert_eq!(built(&["b", "a"]).to_text(), "(a$|b$)");
    assert_eq!(built(&["a", "a/b"]).to_text(), "a$/b$");
    assert_eq!(
        built(&["./b/foo*", "./b/", "./a", "./b/bar"]).to_text(),
        "(a$|b/($|bar$|foo*$))"
    );
    // A longer text comes behind its beginnings, and wildcards behind literals.
    assert_eq!(built(&["ab", "*", "a", "b*", "a*c", "a*"]).to_text(), "(a$|ab$|*$|a*$|a*c$|b*$)");
}

#[test]
fn kinds_of_components_are_ordered() {
    let mut node = PathMatchNode::default();
    node.insert(vec![PatternComponent::Literal(PathComponent::RootName("r".to_string()))]);
    node.insert(vec![PatternComponent::Literal(PathComponent::Parent)]);
    node.insert(vec![PatternComponent::Literal(PathComponent::Name("n".to_string()))]);
    node.insert(vec![PatternComponent::Literal(PathComponent::DirectoryMarker)]);
    node.insert(vec![PatternComponent::Literal(PathComponent::Current)]);
    assert_eq!(node.to_text(), "(.$|$|n$|..$|r$)");
}

#[test]
fn the_order_of_insertion_does_not_show() {
    let patterns = ["x/y", "a/b/c", "a/b", "a/*", "m*n/o", "a/c"];
    let mut forward = PathMatchNode::default();
    for pattern in patterns {
        forward.insert(compile_pattern(pattern).unwrap());
    }
    let mut backward = PathMatchNode::default();
    for pattern in patterns.iter().rev() {
        backward.insert(compile_pattern(pattern).unwrap());
    }
    assert_eq!(forward.to_text(), backward.to_text());
    assert_eq!(forward.to_text(), "(a/(b$/c$|c$|*$)|x/y$|m*n/o$)");
}

#[test]
fn a_copy_is_written_alike() {
    let matcher = built(&["a/b", "a/c*", "d"]);
    assert_eq!(matcher.clone().to_text(), matcher.to_text());
}
