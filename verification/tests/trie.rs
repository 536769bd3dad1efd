use path_match::component::PathComponent;
use path_match::matcher::compile_pattern;
use path_match::trie::PathMatchNode;

fn name(text: &str) -> PathComponent {
    PathComponent::Name(text.to_string())
}

fn trie_of(patterns: &[&str]) -> PathMatchNode {
    let mut node = PathMatchNode::default();
    for pattern in patterns {
        node.insert(compile_pattern(pattern).unwrap());
    }
    node
}

#[test]
fn fresh_node_is_empty_and_accepts_nothing() {
    let node = PathMatchNode::default();
    assert!(node.is_empty());
    assert!(!PathMatchNode::matches(&node, &[], false));
    assert!(!PathMatchNode::matches(&node, &[name("a")], false));
}

#[test]
fn every_node_is_a_prefix_of_what_lies_below() {
    let node = PathMatchNode::default();
    assert!(PathMatchNode::matches(&node, &[], true));
    assert!(PathMatchNode::matches(&node, &[PathComponent::Current], true));
    assert!(PathMatchNode::matches(&node, &[PathComponent::DirectoryMarker], true));
    assert!(!PathMatchNode::matches(&node, &[name("a")], true));
}

#[test]
fn inserted_patterns_are_accepted() {
    let node = trie_of(&["a/b", "a/c*"]);
    assert!(!node.is_empty());
    assert!(PathMatchNode::matches(&node, &[name("a"), name("b")], false));
    assert!(PathMatchNode::matches(&node, &[name("a"), name("cow")], false));
    assert!(!PathMatchNode::matches(&node, &[name("a")], false));
    assert!(!PathMatchNode::matches(&node, &[name("a"), name("d")], false));
    assert!(!PathMatchNode::matches(&node, &[name("a"), name("b"), name("c")], false));
}

#[test]
fn a_closing_marker_is_accepted_where_a_pattern_ends() {
    let node = trie_of(&["a"]);
    assert!(PathMatchNode::matches(&node, &[name("a"), PathComponent::DirectoryMarker], false));
    assert!(!PathMatchNode::matches(
        &node,
        &[name("a"), PathComponent::DirectoryMarker, PathComponent::DirectoryMarker],
        false
    ));
}

#[test]
fn all_branches_are_explored() {
    // The literal edge leads nowhere, the wildcard edges do.
    let node = trie_of(&["ab/x", "a*/y", "*b/z"]);
    assert!(PathMatchNode::matches(&node, &[name("ab"), name("x")], false));
    assert!(PathMatchNode::matches(&node, &[name("ab"), name("y")], false));
    assert!(PathMatchNode::matches(&node, &[name("ab"), name("z")], false));
    assert!(!PathMatchNode::matches(&node, &[name("ab"), name("w")], false));
}

#[test]
fn wildcards_admit_names_only() {
    let node = trie_of(&["*"]);
    assert!(PathMatchNode::matches(&node, &[name("..")], false));
    assert!(!PathMatchNode::matches(&node, &[PathComponent::Parent], false));
    assert!(!PathMatchNode::matches(&node, &[PathComponent::Current], false));
    assert!(!PathMatchNode::matches(&node, &[PathComponent::RootName(String::new())], false));
}

#[test]
fn a_leading_current_is_kept_for_full_matches_only() {
    let node = trie_of(&["a"]);
    assert!(!PathMatchNode::matches(&node, &[PathComponent::Current, name("a")], false));
    assert!(PathMatchNode::matches(&node, &[PathComponent::Current, name("a")], true));
}

#[test]
fn depth_bounds_of_an_empty_trie() {
    let mut node = PathMatchNode::default();
    assert_eq!(node.recompute_depth_bounds(), (usize::MAX, 0));
    assert_eq!(node.max_depth_bound(), 0);
}

#[test]
fn depth_bounds_span_all_patterns() {
    let mut node = trie_of(&["a", "a/b/c", "x/*/y/z/"]);
    assert_eq!(node.recompute_depth_bounds(), (1, 4));
    assert_eq!(node.max_depth_bound(), 4);

    let mut node = trie_of(&[".", "a/b"]);
    assert_eq!(node.recompute_depth_bounds(), (0, 2));

    let mut node = trie_of(&["./", "/"]);
    assert_eq!(node.recompute_depth_bounds(), (0, 1));
}

#[test]
fn inserting_a_pattern_twice_changes_nothing() {
    let mut once = trie_of(&["a/b"]);
    let mut twice = trie_of(&["a/b", "a/b"]);
    assert_eq!(once.recompute_depth_bounds(), twice.recompute_depth_bounds());
    assert!(PathMatchNode::matches(&twice, &[name("a"), name("b")], false));
    assert!(!PathMatchNode::matches(&twice, &[name("a")], false));
}

#[test]
fn a_copy_accepts_what_its_source_accepts() {
    let mut node = trie_of(&["a/b", "c*"]);
    node.recompute_depth_bounds();
    let copy = node.clone();
    assert_eq!(copy.max_depth_bound(), node.max_depth_bound());
    for path in [vec![name("a"), name("b")], vec![name("cd")], vec![name("a")]] {
        assert_eq!(
            PathMatchNode::matches(&copy, &path, false),
            PathMatchNode::matches(&node, &path, false)
        );
        assert_eq!(
            PathMatchNode::matches(&copy, &path, true),
            PathMatchNode::matches(&node, &path, true)
        );
    }
}
