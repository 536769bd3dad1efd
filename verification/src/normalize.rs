//! Normalizing the components of a candidate path.

use vstd::prelude::*;

use crate::component::{Component, PathComponent};
use crate::tokenizer::{marker_only_last, StringComponentIter};

verus! {

/// What the normalized components `done` become when `component` follows.
///
/// Names and the root are kept. `.` is dropped. A directory marker is kept,
/// with a `.` in front of it when nothing else is. `..` takes away the name
/// before it; it is kept where there is nothing before it or another `..`,
/// and dropped behind the root, above which there is nothing. (Behind a `.`
/// or a directory marker it would be dropped too, but neither is ever
/// followed by anything.)
pub open spec fn normalize_step(done: Seq<Component>, component: Component) -> Seq<Component> {
    match component {
        Component::Name(_) | Component::RootName(_) => done.push(component),
        Component::DirectoryMarker => if done.len() == 0 {
            seq![Component::Current, Component::DirectoryMarker]
        } else {
            done.push(Component::DirectoryMarker)
        },
        Component::Parent => if done.len() == 0 {
            done.push(Component::Parent)
        } else {
            match done.last() {
                Component::Parent => done.push(Component::Parent),
                Component::Name(_) => done.drop_last(),
                _ => done,
            }
        },
        Component::Current => done,
    }
}

/// Normalizes `components` behind what has been normalized already. An
/// empty result stands for the current directory.
pub open spec fn normalize_onto(done: Seq<Component>, components: Seq<Component>) -> Seq<Component>
    decreases components.len(),
{
    if components.len() == 0 {
        if done.len() == 0 {
            seq![Component::Current]
        } else {
            done
        }
    } else {
        normalize_onto(normalize_step(done, components[0]), components.skip(1))
    }
}

/// The normal form of a path's components.
pub open spec fn normalize(components: Seq<Component>) -> Seq<Component> {
    normalize_onto(seq![], components)
}

/// Whether something can still follow `done`: it holds neither a `.` nor a
/// directory marker, which only ever come at the very end.
pub open spec fn open_ended(done: Seq<Component>) -> bool {
    forall|i: int|
        0 <= i < done.len() ==> #[trigger] done[i] != Component::Current && done[i]
            != Component::DirectoryMarker
}

/// Normalizes the components that `components` has yet to hand out.
pub fn normalized(components: StringComponentIter<'_>) -> (result: Vec<PathComponent>)
    ensures
        result.deep_view() == normalize(components.remaining()),
{
    let ghost whole = components.remaining();
    let mut reader = components;
    let mut result: Vec<PathComponent> = Vec::new();
    assert(result.deep_view() =~= Seq::<Component>::empty());
    loop
        invariant
            whole == components.remaining(),
            normalize(whole) == normalize_onto(result.deep_view(), reader.remaining()),
            reader.remaining().len() > 0 ==> open_ended(result.deep_view()),
        ensures
            normalize(whole) == normalize_onto(result.deep_view(), Seq::<Component>::empty()),
        decreases reader.remaining().len(),
    {
        let ghost done = result.deep_view();
        let ghost ahead = reader.remaining();
        proof {
            reader.lemma_remaining_marker_last();
        }
        let component = match reader.next() {
            Some(component) => component,
            None => {
                assert(ahead =~= Seq::<Component>::empty());
                break ;
            },
        };
        assert(marker_only_last(ahead));
        match component {
            PathComponent::Name(_) | PathComponent::RootName(_) => {
                result.push(component);
                assert(result.deep_view() =~= done.push(component@));
            },
            PathComponent::DirectoryMarker => {
                if result.is_empty() {
                    result.push(PathComponent::Current);
                }
                result.push(PathComponent::DirectoryMarker);
                assert(result.deep_view() =~= normalize_step(done, Component::DirectoryMarker));
                assert(reader.remaining().len() == 0) by {
                    if ahead.len() > 1 {
                        assert(ahead[0] != Component::DirectoryMarker);
                    }
                }
            },
            PathComponent::Parent => {
                let count = result.len();
                if count == 0 {
                    result.push(PathComponent::Parent);
                    assert(result.deep_view() =~= done.push(Component::Parent));
                } else {
                    assert(done.last() == result@[count - 1]@);
                    match &result[count - 1] {
                        PathComponent::Parent => {
                            result.push(PathComponent::Parent);
                            assert(result.deep_view() =~= done.push(Component::Parent));
                        },
                        PathComponent::Name(_) => {
                            result.pop();
                            assert(result.deep_view() =~= done.drop_last());
                        },
                        PathComponent::RootName(_) => {},
                        PathComponent::Current | PathComponent::DirectoryMarker => {
                            // Neither is ever followed by anything.
                            assert(false);
                        },
                    }
                }
            },
            PathComponent::Current => {},
        }
    }
    let ghost done = result.deep_view();
    if result.is_empty() {
        result.push(PathComponent::Current);
        assert(result.deep_view() =~= seq![Component::Current]);
    }
    result
}

} // verus!
