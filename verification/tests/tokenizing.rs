use path_match::component::PathComponent;
use path_match::normalize::normalized;
use path_match::text::{chars_of, ends_with, starts_with};
use path_match::tokenizer::StringComponentIter;

fn name(text: &str) -> PathComponent {
    PathComponent::Name(text.to_string())
}

fn root() -> PathComponent {
    PathComponent::RootName(String::new())
}

fn components(path: &str, separator: &str) -> Vec<PathComponent> {
    let mut reader = StringComponentIter::new(path, separator);
    let mut found = Vec::new();
    while let Some(component) = reader.next() {
        found.push(component);
    }
    // A reader that has run out stays that way.
    assert!(reader.next().is_none());
    found
}

#[test]
fn chars_of_keeps_every_character() {
    assert_eq!(chars_of(""), Vec::<char>::new());
    assert_eq!(chars_of("a/é"), vec!['a', '/', 'é']);
}

#[test]
fn tokenizer_splits_on_every_separator() {
    assert_eq!(components("foo/bar", "/"), vec![name("foo"), name("bar")]);
    assert_eq!(components("foo\\bar", "\\"), vec![name("foo"), name("bar")]);
    assert_eq!(components("foo/bar", "\\"), vec![name("foo/bar")]);
}

#[test]
fn tokenizer_classifies_segments() {
    assert_eq!(
        components("./a/../b", "/"),
        vec![PathComponent::Current, name("a"), PathComponent::Parent, name("b")]
    );
    assert_eq!(components("...", "/"), vec![name("...")]);
    assert_eq!(components(".a", "/"), vec![name(".a")]);
    assert_eq!(components("a.", "/"), vec![name("a.")]);
}

#[test]
fn tokenizer_marks_root_and_directory() {
    assert_eq!(components("/", "/"), vec![root(), PathComponent::DirectoryMarker]);
    assert_eq!(components("/a", "/"), vec![root(), name("a")]);
    assert_eq!(components("a/", "/"), vec![name("a"), PathComponent::DirectoryMarker]);
    assert_eq!(components("a//", "/"), vec![name("a"), PathComponent::DirectoryMarker]);
    assert_eq!(components("a//b", "/"), vec![name("a"), name("b")]);
    assert_eq!(components("//a", "/"), vec![root(), name("a")]);
    assert_eq!(components("", "/"), vec![root()]);
}

#[test]
fn tokenizer_handles_long_separators() {
    assert_eq!(components("a::b::", "::"), vec![name("a"), name("b"), PathComponent::DirectoryMarker]);
    assert_eq!(components("a:b", "::"), vec![name("a:b")]);
    // Occurrences are taken from the left and do not overlap.
    assert_eq!(components("aaa", "aa"), vec![root(), name("a")]);
    assert_eq!(components("aaaa", "aa"), vec![root(), PathComponent::DirectoryMarker]);
}

#[test]
fn tokenizer_handles_empty_separator() {
    assert_eq!(
        components("ab", ""),
        vec![root(), name("a"), name("b"), PathComponent::DirectoryMarker]
    );
    assert_eq!(components("", ""), vec![root(), PathComponent::DirectoryMarker]);
    assert_eq!(components(".", ""), vec![root(), PathComponent::Current, PathComponent::DirectoryMarker]);
}

#[test]
fn tokenizer_handles_wide_characters() {
    assert_eq!(components("é/ü→/", "/"), vec![name("é"), name("ü→"), PathComponent::DirectoryMarker]);
    assert_eq!(components("a→b", "→"), vec![name("a"), name("b")]);
}

#[test]
fn normalizing_current_directory() {
    assert_eq!(normalized(StringComponentIter::new(".", "/")), vec![PathComponent::Current]);
    assert_eq!(
        normalized(StringComponentIter::new("./", "/")),
        vec![PathComponent::Current, PathComponent::DirectoryMarker]
    );
    assert_eq!(normalized(StringComponentIter::new("././.", "/")), vec![PathComponent::Current]);
}

#[test]
fn normalizing_drops_current_and_resolves_parent() {
    assert_eq!(normalized(StringComponentIter::new("a/./b", "/")), vec![name("a"), name("b")]);
    assert_eq!(normalized(StringComponentIter::new("a/../b", "/")), vec![name("b")]);
    assert_eq!(normalized(StringComponentIter::new("a/b/../..", "/")), vec![PathComponent::Current]);
    assert_eq!(
        normalized(StringComponentIter::new("a/..//", "/")),
        vec![PathComponent::Current, PathComponent::DirectoryMarker]
    );
}

#[test]
fn normalizing_keeps_unresolved_parents() {
    assert_eq!(normalized(StringComponentIter::new("..", "/")), vec![PathComponent::Parent]);
    assert_eq!(
        normalized(StringComponentIter::new("../..", "/")),
        vec![PathComponent::Parent, PathComponent::Parent]
    );
    assert_eq!(
        normalized(StringComponentIter::new("../a/../../b", "/")),
        vec![PathComponent::Parent, PathComponent::Parent, name("b")]
    );
}

#[test]
fn normalizing_cannot_leave_the_root() {
    assert_eq!(normalized(StringComponentIter::new("/..", "/")), vec![root()]);
    assert_eq!(normalized(StringComponentIter::new("/../a", "/")), vec![root(), name("a")]);
    assert_eq!(
        normalized(StringComponentIter::new("/a/../../", "/")),
        vec![root(), PathComponent::DirectoryMarker]
    );
}

#[test]
fn traversal_depth_counts_descending_components() {
    assert_eq!(PathComponent::Current.traversal_depth(), 0);
    assert_eq!(PathComponent::DirectoryMarker.traversal_depth(), 0);
    assert_eq!(name("a").traversal_depth(), 1);
    assert_eq!(root().traversal_depth(), 1);
    assert_eq!(PathComponent::Parent.traversal_depth(), 1);
}

#[test]
fn components_compare_by_kind_and_text() {
    assert_eq!(name("a"), name("a"));
    assert_ne!(name("a"), name("b"));
    assert_ne!(name(""), root());
    assert_ne!(PathComponent::Current, PathComponent::Parent);
    assert_eq!(name("a").clone(), name("a"));
}

#[test]
fn prefixes_and_suffixes_of_texts() {
    for (text, part, begins, ends) in [
        ("", "", true, true),
        ("abc", "", true, true),
        ("", "a", false, false),
        ("abc", "ab", true, false),
        ("abc", "bc", false, true),
        ("abc", "abc", true, true),
        ("abc", "abcd", false, false),
        ("abc", "b", false, false),
        ("aé→", "aé", true, false),
        ("aé→", "é→", false, true),
        ("aé→", "→", false, true),
        ("aaa", "aa", true, true),
    ] {
        assert_eq!(starts_with(text, part), begins, "{:?} {:?}", text, part);
        assert_eq!(ends_with(text, part), ends, "{:?} {:?}", text, part);
        assert_eq!(starts_with(text, part), text.starts_with(part));
        assert_eq!(ends_with(text, part), text.ends_with(part));
    }
}
