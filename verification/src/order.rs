//! The order in which the edges of a trie node are kept.

use vstd::prelude::*;

use crate::component::{Component, PathComponent};
use crate::pattern::{StartsEndsWith, Wildcard};
use crate::text::chars_of;

verus! {

/// Whether `a` comes before `b` in the dictionary: character by character,
/// and a text before each of its extensions.
pub open spec fn text_before(a: Seq<char>, b: Seq<char>) -> bool
    decreases a.len(),
{
    if a.len() == 0 {
        b.len() > 0
    } else if b.len() == 0 {
        false
    } else if a[0] == b[0] {
        text_before(a.skip(1), b.skip(1))
    } else {
        a[0] < b[0]
    }
}

/// The place of a component's kind among the kinds.
pub open spec fn rank(component: Component) -> int {
    match component {
        Component::Current => 0,
        Component::DirectoryMarker => 1,
        Component::Name(_) => 2,
        Component::Parent => 3,
        Component::RootName(_) => 4,
    }
}

/// Whether `a` comes before `b`: by kind first, and within a kind that has
/// a text by that text.
pub open spec fn component_before(a: Component, b: Component) -> bool {
    rank(a) < rank(b) || match (a, b) {
        (Component::Name(x), Component::Name(y)) => text_before(x, y),
        (Component::RootName(x), Component::RootName(y)) => text_before(x, y),
        _ => false,
    }
}

/// Whether `a` comes before `b`: by prefix first, then by suffix.
pub open spec fn wildcard_before(a: Wildcard, b: Wildcard) -> bool {
    text_before(a.prefix, b.prefix) || (a.prefix == b.prefix && text_before(a.suffix, b.suffix))
}

/// No text comes before itself.
pub proof fn lemma_text_irreflexive(a: Seq<char>)
    ensures
        !text_before(a, a),
    decreases a.len(),
{
    if a.len() > 0 {
        lemma_text_irreflexive(a.skip(1));
    }
}

/// Of two different texts one comes before the other.
pub proof fn lemma_text_total(a: Seq<char>, b: Seq<char>)
    requires
        a != b,
    ensures
        text_before(a, b) || text_before(b, a),
    decreases a.len(),
{
    if a.len() > 0 && b.len() > 0 && a[0] == b[0] {
        assert(a.skip(1) != b.skip(1)) by {
            if a.skip(1) == b.skip(1) {
                assert(a =~= seq![a[0]] + a.skip(1));
                assert(b =~= seq![b[0]] + b.skip(1));
            }
        }
        lemma_text_total(a.skip(1), b.skip(1));
    } else if a.len() == 0 && b.len() == 0 {
        assert(a =~= b);
    }
}

/// What comes before something that comes before a third comes before the
/// third.
pub proof fn lemma_text_transitive(a: Seq<char>, b: Seq<char>, c: Seq<char>)
    requires
        text_before(a, b),
        text_before(b, c),
    ensures
        text_before(a, c),
    decreases a.len(),
{
    if a.len() > 0 && a[0] == b[0] && b[0] == c[0] {
        lemma_text_transitive(a.skip(1), b.skip(1), c.skip(1));
    }
}

/// No component comes before itself.
pub proof fn lemma_component_irreflexive(a: Component)
    ensures
        !component_before(a, a),
{
    match a {
        Component::Name(x) => lemma_text_irreflexive(x),
        Component::RootName(x) => lemma_text_irreflexive(x),
        _ => {},
    }
}

/// Of two different components one comes before the other.
pub proof fn lemma_component_total(a: Component, b: Component)
    requires
        a != b,
    ensures
        component_before(a, b) || component_before(b, a),
{
    match (a, b) {
        (Component::Name(x), Component::Name(y)) => lemma_text_total(x, y),
        (Component::RootName(x), Component::RootName(y)) => lemma_text_total(x, y),
        _ => {},
    }
}

/// The order of components is transitive.
pub proof fn lemma_component_transitive(a: Component, b: Component, c: Component)
    requires
        component_before(a, b),
        component_before(b, c),
    ensures
        component_before(a, c),
{
    match (a, b, c) {
        (Component::Name(x), Component::Name(y), Component::Name(z)) => lemma_text_transitive(
            x,
            y,
            z,
        ),
        (
            Component::RootName(x),
            Component::RootName(y),
            Component::RootName(z),
        ) => lemma_text_transitive(x, y, z),
        _ => {},
    }
}

/// No wildcard comes before itself.
pub proof fn lemma_wildcard_irreflexive(a: Wildcard)
    ensures
        !wildcard_before(a, a),
{
    lemma_text_irreflexive(a.prefix);
    lemma_text_irreflexive(a.suffix);
}

/// Of two different wildcards one comes before the other.
pub proof fn lemma_wildcard_total(a: Wildcard, b: Wildcard)
    requires
        a != b,
    ensures
        wildcard_before(a, b) || wildcard_before(b, a),
{
    if a.prefix != b.prefix {
        lemma_text_total(a.prefix, b.prefix);
    } else {
        lemma_text_total(a.suffix, b.suffix);
    }
}

/// The order of wildcards is transitive.
pub proof fn lemma_wildcard_transitive(a: Wildcard, b: Wildcard, c: Wildcard)
    requires
        wildcard_before(a, b),
        wildcard_before(b, c),
    ensures
        wildcard_before(a, c),
{
    if text_before(a.prefix, b.prefix) && text_before(b.prefix, c.prefix) {
        lemma_text_transitive(a.prefix, b.prefix, c.prefix);
    } else if a.prefix == b.prefix && b.prefix == c.prefix {
        lemma_text_transitive(a.suffix, b.suffix, c.suffix);
    }
}

/// Whether the text `a` comes before the text `b`.
pub fn text_precedes(a: &str, b: &str) -> (before: bool)
    ensures
        before == text_before(a@, b@),
{
    let first = chars_of(a);
    let second = chars_of(b);
    let mut i: usize = 0;
    assert(first@.skip(0) =~= a@ && second@.skip(0) =~= b@);
    loop
        invariant
            first@ == a@,
            second@ == b@,
            i <= first@.len(),
            i <= second@.len(),
            text_before(a@, b@) == text_before(first@.skip(i as int), second@.skip(i as int)),
        decreases first@.len() - i,
    {
        let ghost left = first@.skip(i as int);
        let ghost right = second@.skip(i as int);
        if i == first.len() {
            return i < second.len();
        }
        if i == second.len() {
            return false;
        }
        if first[i] != second[i] {
            return first[i] < second[i];
        }
        assert(left.skip(1) =~= first@.skip(i + 1));
        assert(right.skip(1) =~= second@.skip(i + 1));
        i = i + 1;
    }
}

/// Whether the component `a` comes before the component `b`.
pub fn component_precedes(a: &PathComponent, b: &PathComponent) -> (before: bool)
    ensures
        before == component_before(a@, b@),
{
    match (a, b) {
        (PathComponent::Name(x), PathComponent::Name(y)) => text_precedes(x.as_str(), y.as_str()),
        (PathComponent::RootName(x), PathComponent::RootName(y)) => text_precedes(
            x.as_str(),
            y.as_str(),
        ),
        _ => kind_of(a) < kind_of(b),
    }
}

/// The place of the component's kind among the kinds.
fn kind_of(component: &PathComponent) -> (kind: u8)
    ensures
        kind == rank(component@),
{
    match component {
        PathComponent::Current => 0,
        PathComponent::DirectoryMarker => 1,
        PathComponent::Name(_) => 2,
        PathComponent::Parent => 3,
        PathComponent::RootName(_) => 4,
    }
}

/// Whether the wildcard `a` comes before the wildcard `b`.
pub fn wildcard_precedes(a: &StartsEndsWith, b: &StartsEndsWith) -> (before: bool)
    ensures
        before == wildcard_before(a@, b@),
{
    if text_precedes(a.0.as_str(), b.0.as_str()) {
        true
    } else if a.0 == b.0 {
        text_precedes(a.1.as_str(), b.1.as_str())
    } else {
        false
    }
}

} // verus!
