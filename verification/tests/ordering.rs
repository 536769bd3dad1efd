use path_match::component::PathComponent;
use path_match::order::{component_precedes, text_precedes, wildcard_precedes};
use path_match::pattern::StartsEndsWith;

const TEXTS: [&str; 12] = ["", "a", "A", "aa", "ab", "b", "ba", "é", "z", "→", "a→", "ü"];

#[test]
fn texts_are_ordered_as_strings_are() {
    for first in TEXTS {
        for second in TEXTS {
            assert_eq!(text_precedes(first, second), first < second, "{:?} {:?}", first, second);
        }
    }
}

#[test]
fn a_text_comes_before_its_extensions() {
    assert!(text_precedes("", "a"));
    assert!(text_precedes("ab", "abc"));
    assert!(!text_precedes("abc", "ab"));
    assert!(!text_precedes("abc", "abc"));
    assert!(!text_precedes("", ""));
}

#[test]
fn components_are_ordered_by_kind_then_text() {
    let ordered = [
        PathComponent::Current,
        PathComponent::DirectoryMarker,
        PathComponent::Name(String::new()),
        PathComponent::Name("a".to_string()),
        PathComponent::Name("b".to_string()),
        PathComponent::Parent,
        PathComponent::RootName(String::new()),
        PathComponent::RootName("r".to_string()),
    ];
    for (i, first) in ordered.iter().enumerate() {
        for (j, second) in ordered.iter().enumerate() {
            assert_eq!(component_precedes(first, second), i < j, "{:?} {:?}", first, second);
        }
    }
}

#[test]
fn wildcards_are_ordered_by_prefix_then_suffix() {
    let ordered = [("", ""), ("", "a"), ("a", ""), ("a", "a"), ("a", "b"), ("ab", ""), ("b", "")];
    for (i, first) in ordered.iter().enumerate() {
        for (j, second) in ordered.iter().enumerate() {
            let first = StartsEndsWith(first.0.to_string(), first.1.to_string());
            let second = StartsEndsWith(second.0.to_string(), second.1.to_string());
            assert_eq!(wildcard_precedes(&first, &second), i < j, "{:?} {:?}", first, second);
        }
    }
}
