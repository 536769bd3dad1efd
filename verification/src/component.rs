//! Path components: the units a separator-delimited path is made of.

use vstd::prelude::*;
use vstd::string::StringExecFns;

verus! {

/// The mathematical value of a path component.
pub enum Component {
    /// A `.` segment.
    Current,
    /// The trailing empty segment of a path that ends in a separator.
    DirectoryMarker,
    /// An ordinary segment.
    Name(Seq<char>),
    /// A `..` segment.
    Parent,
    /// The segment in front of a leading separator.
    RootName(Seq<char>),
}

impl Component {
    /// The text that the component is written as.
    pub open spec fn text(self) -> Seq<char> {
        match self {
            Component::Current => seq!['.'],
            Component::DirectoryMarker => seq![],
            Component::Name(text) => text,
            Component::Parent => seq!['.', '.'],
            Component::RootName(text) => text,
        }
    }

    /// How many directory levels this component descends: `.` and the
    /// directory marker stay where they are, everything else moves by one.
    pub open spec fn depth(self) -> nat {
        match self {
            Component::Current | Component::DirectoryMarker => 0,
            Component::Name(_) | Component::RootName(_) | Component::Parent => 1,
        }
    }
}

/// One component of a path, owning its text.
#[derive(Debug)]
pub enum PathComponent {
    /// A `.` segment.
    Current,
    /// The trailing empty segment of a path that ends in a separator.
    DirectoryMarker,
    /// An ordinary segment.
    Name(String),
    /// A `..` segment.
    Parent,
    /// The segment in front of a leading separator.
    RootName(String),
}

impl View for PathComponent {
    type V = Component;

    open spec fn view(&self) -> Component {
        match self {
            PathComponent::Current => Component::Current,
            PathComponent::DirectoryMarker => Component::DirectoryMarker,
            PathComponent::Name(text) => Component::Name(text@),
            PathComponent::Parent => Component::Parent,
            PathComponent::RootName(text) => Component::RootName(text@),
        }
    }
}

impl DeepView for PathComponent {
    type V = Component;

    open spec fn deep_view(&self) -> Component {
        self@
    }
}

impl Clone for PathComponent {
    fn clone(&self) -> (copy: PathComponent)
        ensures
            copy@ == self@,
    {
        match self {
            PathComponent::Current => PathComponent::Current,
            PathComponent::DirectoryMarker => PathComponent::DirectoryMarker,
            PathComponent::Name(text) => PathComponent::Name(text.clone()),
            PathComponent::Parent => PathComponent::Parent,
            PathComponent::RootName(text) => PathComponent::RootName(text.clone()),
        }
    }
}

impl PartialEq for PathComponent {
    fn eq(&self, other: &PathComponent) -> (same: bool) {
        match (self, other) {
            (PathComponent::Current, PathComponent::Current) => true,
            (PathComponent::DirectoryMarker, PathComponent::DirectoryMarker) => true,
            (PathComponent::Name(a), PathComponent::Name(b)) => *a == *b,
            (PathComponent::Parent, PathComponent::Parent) => true,
            (PathComponent::RootName(a), PathComponent::RootName(b)) => *a == *b,
            _ => false,
        }
    }
}

impl Eq for PathComponent {}

impl vstd::std_specs::cmp::PartialEqSpecImpl for PathComponent {
    open spec fn obeys_eq_spec() -> bool {
        true
    }

    open spec fn eq_spec(&self, other: &PathComponent) -> bool {
        self@ == other@
    }
}

impl PathComponent {
    /// The component as it is written in a path.
    pub fn to_text(&self) -> (text: String)
        ensures
            text@ == self@.text(),
    {
        proof {
            reveal_strlit(".");
            reveal_strlit("..");
        }
        match self {
            PathComponent::Current => {
                let text = String::from_str(".");
                text
            },
            PathComponent::DirectoryMarker => String::new(),
            PathComponent::Name(name) => name.clone(),
            PathComponent::Parent => {
                let text = String::from_str("..");
                text
            },
            PathComponent::RootName(name) => name.clone(),
        }
    }

    /// The number of directory levels this component descends.
    pub fn traversal_depth(&self) -> (depth: usize)
        ensures
            depth == self@.depth(),
    {
        match self {
            PathComponent::Current | PathComponent::DirectoryMarker => 0,
            PathComponent::Name(_) | PathComponent::RootName(_) | PathComponent::Parent => 1,
        }
    }
}

} // verus!
