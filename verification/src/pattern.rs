//! Compiling the components of a pattern into matchers.

use vstd::prelude::*;
use vstd::string::StringExecFns;

use crate::component::{Component, PathComponent};
use crate::text::{chars_of, ends_with, owned_text, starts_with};
use crate::tokenizer::StringComponentIter;

verus! {

/// The character that stands for any run of characters in a pattern.
pub const WILDCARD_ANY: char = '*';

/// The mathematical value of a wildcard: the text in front of the `*` and
/// the text behind it.
pub struct Wildcard {
    pub prefix: Seq<char>,
    pub suffix: Seq<char>,
}

impl Wildcard {
    /// The text that the wildcard is written as.
    pub open spec fn text(self) -> Seq<char> {
        self.prefix + seq![WILDCARD_ANY] + self.suffix
    }

    /// A name is admitted when it begins with the prefix and ends with the
    /// suffix. The two may overlap in the name.
    pub open spec fn admits(self, name: Seq<char>) -> bool {
        self.prefix.is_prefix_of(name) && self.suffix.is_suffix_of(name)
    }
}

/// The mathematical value of one compiled pattern component.
pub enum Matcher {
    /// Admits the one component equal to it.
    Literal(Component),
    /// Admits the names that fit the wildcard, and nothing but names.
    StartsEndsWith(Wildcard),
}

impl Matcher {
    /// The text that the matcher is written as.
    pub open spec fn text(self) -> Seq<char> {
        match self {
            Matcher::Literal(literal) => literal.text(),
            Matcher::StartsEndsWith(wildcard) => wildcard.text(),
        }
    }

    /// Whether a path component is accepted in the place of this matcher.
    pub open spec fn admits(self, component: Component) -> bool {
        match self {
            Matcher::Literal(literal) => literal == component,
            Matcher::StartsEndsWith(wildcard) => match component {
                Component::Name(name) => wildcard.admits(name),
                _ => false,
            },
        }
    }

    /// How many directory levels a component admitted here descends.
    pub open spec fn depth(self) -> nat {
        match self {
            Matcher::Literal(literal) => literal.depth(),
            Matcher::StartsEndsWith(_) => 1,
        }
    }
}

/// The mathematical value of a compilation error.
pub enum Fault {
    /// The pattern holds a `..` component.
    NoParents,
    /// The named component holds more than one wildcard.
    WildcardPosition { component: Seq<char> },
}

/// A name matcher with the text required at the start and at the end.
#[derive(Debug)]
pub struct StartsEndsWith(pub String, pub String);

impl View for StartsEndsWith {
    type V = Wildcard;

    open spec fn view(&self) -> Wildcard {
        Wildcard { prefix: self.0@, suffix: self.1@ }
    }
}

impl DeepView for StartsEndsWith {
    type V = Wildcard;

    open spec fn deep_view(&self) -> Wildcard {
        self@
    }
}

impl Clone for StartsEndsWith {
    fn clone(&self) -> (copy: StartsEndsWith)
        ensures
            copy@ == self@,
    {
        StartsEndsWith(self.0.clone(), self.1.clone())
    }
}

impl PartialEq for StartsEndsWith {
    fn eq(&self, other: &StartsEndsWith) -> (same: bool) {
        self.0 == other.0 && self.1 == other.1
    }
}

impl Eq for StartsEndsWith {}

impl vstd::std_specs::cmp::PartialEqSpecImpl for StartsEndsWith {
    open spec fn obeys_eq_spec() -> bool {
        true
    }

    open spec fn eq_spec(&self, other: &StartsEndsWith) -> bool {
        self@ == other@
    }
}

impl StartsEndsWith {
    /// The matcher as it is written in a pattern.
    pub fn to_text(&self) -> (text: String)
        ensures
            text@ == self@.text(),
    {
        proof {
            reveal_strlit("*");
        }
        let mut text = self.0.clone();
        text.append("*");
        text.append(self.1.as_str());
        assert(text@ =~= self@.text());
        text
    }

    /// Whether `name` begins and ends as this matcher asks.
    pub fn matches(&self, name: &str) -> (admitted: bool)
        ensures
            admitted == self@.admits(name@),
    {
        starts_with(name, self.0.as_str()) && ends_with(name, self.1.as_str())
    }
}

/// One compiled component of a pattern.
#[derive(Debug)]
pub enum PatternComponent {
    /// Matches the component equal to it.
    Literal(PathComponent),
    /// Matches names by their start and end.
    StartsEndsWith(StartsEndsWith),
}

impl View for PatternComponent {
    type V = Matcher;

    open spec fn view(&self) -> Matcher {
        match self {
            PatternComponent::Literal(literal) => Matcher::Literal(literal@),
            PatternComponent::StartsEndsWith(wildcard) => Matcher::StartsEndsWith(wildcard@),
        }
    }
}

impl DeepView for PatternComponent {
    type V = Matcher;

    open spec fn deep_view(&self) -> Matcher {
        self@
    }
}

impl PatternComponent {
    /// The component as it is written in a pattern.
    pub fn to_text(&self) -> (text: String)
        ensures
            text@ == self@.text(),
    {
        match self {
            PatternComponent::Literal(literal) => literal.to_text(),
            PatternComponent::StartsEndsWith(wildcard) => wildcard.to_text(),
        }
    }
}

impl Clone for PatternComponent {
    fn clone(&self) -> (copy: PatternComponent)
        ensures
            copy@ == self@,
    {
        match self {
            PatternComponent::Literal(literal) => PatternComponent::Literal(literal.clone()),
            PatternComponent::StartsEndsWith(wildcard) => PatternComponent::StartsEndsWith(
                wildcard.clone(),
            ),
        }
    }
}

impl PartialEq for PatternComponent {
    fn eq(&self, other: &PatternComponent) -> (same: bool) {
        match (self, other) {
            (PatternComponent::Literal(a), PatternComponent::Literal(b)) => *a == *b,
            (PatternComponent::StartsEndsWith(a), PatternComponent::StartsEndsWith(b)) => *a == *b,
            _ => false,
        }
    }
}

impl Eq for PatternComponent {}

impl vstd::std_specs::cmp::PartialEqSpecImpl for PatternComponent {
    open spec fn obeys_eq_spec() -> bool {
        true
    }

    open spec fn eq_spec(&self, other: &PatternComponent) -> bool {
        self@ == other@
    }
}

/// Errors that can occur during pattern compilation.
#[derive(Debug)]
pub enum Error {
    /// The supplied pattern contained a parent traversal (`..`).
    NoParents,
    /// More than one wildcard was used in a component.
    WildcardPosition { component: String },
}

impl Fault {
    /// The message that explains the error.
    pub open spec fn message(self) -> Seq<char> {
        match self {
            Fault::NoParents => "Pattern must not contain parent traversals"@,
            Fault::WildcardPosition { component } => "Only one wilcard allowed in component: `"@
                + component + "`"@,
        }
    }
}

impl Error {
    /// The message that explains the error.
    pub fn to_text(&self) -> (text: String)
        ensures
            text@ == self@.message(),
    {
        match self {
            Error::NoParents => String::from_str("Pattern must not contain parent traversals"),
            Error::WildcardPosition { component } => {
                let mut text = String::from_str("Only one wilcard allowed in component: `");
                text.append(component.as_str());
                text.append("`");
                text
            },
        }
    }
}

impl View for Error {
    type V = Fault;

    open spec fn view(&self) -> Fault {
        match self {
            Error::NoParents => Fault::NoParents,
            Error::WildcardPosition { component } => Fault::WildcardPosition {
                component: component@,
            },
        }
    }
}

/// `name` holds a wildcard at `at` and nowhere else.
pub open spec fn sole_wildcard(name: Seq<char>, at: int) -> bool {
    &&& 0 <= at < name.len()
    &&& name[at] == WILDCARD_ANY
    &&& forall|j: int| 0 <= j < name.len() && j != at ==> name[j] != WILDCARD_ANY
}

/// What the name of a pattern component compiles to: itself when it holds
/// no wildcard, the text around its wildcard when it holds exactly one, and
/// an error when it holds more.
pub open spec fn compile_name(name: Seq<char>) -> Result<Matcher, Fault> {
    if !name.contains(WILDCARD_ANY) {
        Ok(Matcher::Literal(Component::Name(name)))
    } else if exists|at: int| sole_wildcard(name, at) {
        let at = choose|at: int| sole_wildcard(name, at);
        Ok(Matcher::StartsEndsWith(Wildcard { prefix: name.take(at), suffix: name.skip(at + 1) }))
    } else {
        Err(Fault::WildcardPosition { component: name })
    }
}

/// What `done` becomes when a directory marker is compiled behind it.
pub open spec fn with_marker(done: Seq<Matcher>) -> Seq<Matcher> {
    if done.len() == 0 {
        seq![Matcher::Literal(Component::Current), Matcher::Literal(Component::DirectoryMarker)]
    } else {
        done.push(Matcher::Literal(Component::DirectoryMarker))
    }
}

/// An empty result stands for the current directory.
pub open spec fn or_current(done: Seq<Matcher>) -> Seq<Matcher> {
    if done.len() == 0 {
        seq![Matcher::Literal(Component::Current)]
    } else {
        done
    }
}

/// Compiles `components` behind the matchers in `done`. The first component
/// that cannot be compiled decides the error.
pub open spec fn compile_onto(done: Seq<Matcher>, components: Seq<Component>) -> Result<
    Seq<Matcher>,
    Fault,
>
    decreases components.len(),
{
    if components.len() == 0 {
        Ok(or_current(done))
    } else {
        let rest = components.skip(1);
        match components[0] {
            Component::Name(name) => match compile_name(name) {
                Ok(matcher) => compile_onto(done.push(matcher), rest),
                Err(fault) => Err(fault),
            },
            Component::Parent => Err(Fault::NoParents),
            Component::Current => compile_onto(done, rest),
            Component::DirectoryMarker => compile_onto(with_marker(done), rest),
            Component::RootName(text) => compile_onto(
                done.push(Matcher::Literal(Component::RootName(text))),
                rest,
            ),
        }
    }
}

/// The matchers that the components of a pattern compile to.
pub open spec fn compile(components: Seq<Component>) -> Result<Seq<Matcher>, Fault> {
    compile_onto(seq![], components)
}

/// Compiles the name of one pattern component.
pub fn name_to_pattern(name: String) -> (compiled: Result<PatternComponent, Error>)
    ensures
        match compile_name(name@) {
            Ok(matcher) => compiled is Ok && compiled->Ok_0@ == matcher,
            Err(fault) => compiled is Err && compiled->Err_0@ == fault,
        },
{
    let chars = chars_of(name.as_str());
    let mut found: Option<usize> = None;
    let mut i: usize = 0;
    while i < chars.len()
        invariant
            chars@ == name@,
            i <= chars.len(),
            match found {
                Some(at) => at < i && chars@[at as int] == WILDCARD_ANY && forall|j: int|
                    0 <= j < i && j != at ==> chars@[j] != WILDCARD_ANY,
                None => forall|j: int| 0 <= j < i ==> chars@[j] != WILDCARD_ANY,
            },
        decreases chars.len() - i,
    {
        if chars[i] == WILDCARD_ANY {
            if found.is_some() {
                proof {
                    let first = found->0 as int;
                    assert(name@.contains(WILDCARD_ANY));
                    assert forall|at: int| !sole_wildcard(name@, at) by {
                        if sole_wildcard(name@, at) {
                            if at == first {
                                assert(name@[i as int] != WILDCARD_ANY);
                            } else {
                                assert(name@[first] != WILDCARD_ANY);
                            }
                        }
                    }
                }
                return Err(Error::WildcardPosition { component: name });
            }
            found = Some(i);
        }
        i = i + 1;
    }
    match found {
        Some(at) => {
            proof {
                assert(name@.contains(WILDCARD_ANY));
                assert(sole_wildcard(name@, at as int));
                let chosen = choose|c: int| sole_wildcard(name@, c);
                assert(chosen == at) by {
                    if chosen != at {
                        assert(name@[at as int] != WILDCARD_ANY);
                    }
                }
                assert(name@.subrange(0, at as int) =~= name@.take(at as int));
                assert(name@.subrange(at + 1, name@.len() as int) =~= name@.skip(at + 1));
            }
            let start = owned_text(name.as_str().substring_char(0, at));
            let end = owned_text(name.as_str().substring_char(at + 1, chars.len()));
            Ok(PatternComponent::StartsEndsWith(StartsEndsWith(start, end)))
        },
        None => {
            assert(!name@.contains(WILDCARD_ANY));
            Ok(PatternComponent::Literal(PathComponent::Name(name)))
        },
    }
}

/// Compiles the components of a pattern into matchers.
///
/// `.` is dropped, `..` is an error, and a name may hold one wildcard. A
/// pattern that ends in a separator keeps that as a directory marker, and an
/// otherwise empty pattern stands for the current directory.
pub fn path_to_pattern(components: StringComponentIter<'_>) -> (compiled: Result<
    Vec<PatternComponent>,
    Error,
>)
    ensures
        match compile(components.remaining()) {
            Ok(matchers) => compiled is Ok && compiled->Ok_0.deep_view() == matchers,
            Err(fault) => compiled is Err && compiled->Err_0@ == fault,
        },
{
    let ghost whole = components.remaining();
    let mut reader = components;
    let mut result: Vec<PatternComponent> = Vec::new();
    assert(result.deep_view() =~= Seq::<Matcher>::empty());
    loop
        invariant
            whole == components.remaining(),
            compile(whole) == compile_onto(result.deep_view(), reader.remaining()),
        ensures
            compile(whole) == Ok::<Seq<Matcher>, Fault>(or_current(result.deep_view())),
        decreases reader.remaining().len(),
    {
        let ghost done = result.deep_view();
        match reader.next() {
            None => {
                break ;
            },
            Some(PathComponent::Name(name)) => {
                match name_to_pattern(name) {
                    Ok(matcher) => {
                        result.push(matcher);
                        assert(result.deep_view() =~= done.push(matcher@));
                    },
                    Err(error) => {
                        return Err(error);
                    },
                }
            },
            Some(PathComponent::Parent) => {
                return Err(Error::NoParents);
            },
            Some(PathComponent::Current) => {},
            Some(PathComponent::DirectoryMarker) => {
                if result.is_empty() {
                    result.push(PatternComponent::Literal(PathComponent::Current));
                }
                result.push(PatternComponent::Literal(PathComponent::DirectoryMarker));
                assert(result.deep_view() =~= with_marker(done));
            },
            Some(PathComponent::RootName(text)) => {
                let ghost literal = Matcher::Literal(Component::RootName(text@));
                result.push(PatternComponent::Literal(PathComponent::RootName(text)));
                assert(result.deep_view() =~= done.push(literal));
            },
        }
    }
    let ghost done = result.deep_view();
    if result.is_empty() {
        result.push(PatternComponent::Literal(PathComponent::Current));
    }
    assert(result.deep_view() =~= or_current(done));
    Ok(result)
}

} // verus!
