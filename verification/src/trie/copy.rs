//! Copying a trie.

use vstd::prelude::*;

use crate::component::PathComponent;
use crate::order::{component_before, wildcard_before};
use crate::acceptance::depth_of;
use crate::pattern::{Matcher, StartsEndsWith};
use crate::trie::PathMatchNode;

verus! {

impl PathMatchNode {
    /// A node whose edges carry the labels of this node's edges and lead to
    /// faithful copies of its children is a faithful copy of this node.
    proof fn lemma_copied(&self, copy: PathMatchNode)
        requires
            copy.can_end == self.can_end,
            copy.min_traversals == self.min_traversals,
            copy.max_traversals == self.max_traversals,
            copy.literals@.len() == self.literals@.len(),
            copy.starts_ends_with@.len() == self.starts_ends_with@.len(),
            forall|j: int|
                0 <= j < self.literals@.len() ==> (#[trigger] copy.literals@[j]).0@
                    == self.literals@[j].0@ && self.literals@[j].1.copied_as(copy.literals@[j].1),
            forall|j: int|
                0 <= j < self.starts_ends_with@.len() ==> (#[trigger] copy.starts_ends_with@[j]).0@
                    == self.starts_ends_with@[j].0@ && self.starts_ends_with@[j].1.copied_as(
                    copy.starts_ends_with@[j].1,
                ),
        ensures
            self.copied_as(copy),
    {
        copy.lemma_alike(*self);
        if self.sound() {
            assert forall|j: int| 0 <= j < copy.literals@.len() implies (
            #[trigger] copy.literals@[j]).1.sound() && copy.literals@[j].1.fertile() by {
                let twin = self.literals@[j].1;
                assert(twin.sound() && twin.fertile());
                let pattern = choose|pattern: Seq<Matcher>| twin.has_pattern(pattern);
                assert(copy.literals@[j].1.has_pattern(pattern));
            }
            assert forall|j: int| 0 <= j < copy.starts_ends_with@.len() implies (
            #[trigger] copy.starts_ends_with@[j]).1.sound()
                && copy.starts_ends_with@[j].1.fertile() by {
                let twin = self.starts_ends_with@[j].1;
                assert(twin.sound() && twin.fertile());
                let pattern = choose|pattern: Seq<Matcher>| twin.has_pattern(pattern);
                assert(copy.starts_ends_with@[j].1.has_pattern(pattern));
            }
            assert forall|a: int, b: int|
                0 <= a < b < copy.literals@.len() implies component_before(
                (#[trigger] copy.literals@[a]).0@,
                (#[trigger] copy.literals@[b]).0@,
            ) by {
                assert(copy.literals@[a].0@ == self.literals@[a].0@);
                assert(copy.literals@[b].0@ == self.literals@[b].0@);
            }
            assert forall|a: int, b: int|
                0 <= a < b < copy.starts_ends_with@.len() implies wildcard_before(
                (#[trigger] copy.starts_ends_with@[a]).0@,
                (#[trigger] copy.starts_ends_with@[b]).0@,
            ) by {
                assert(copy.starts_ends_with@[a].0@ == self.starts_ends_with@[a].0@);
                assert(copy.starts_ends_with@[b].0@ == self.starts_ends_with@[b].0@);
            }
        }
        if self.settled() {
            assert(copy.fertile() == self.fertile()) by {
                if self.fertile() {
                    let pattern = choose|pattern: Seq<Matcher>| self.has_pattern(pattern);
                    assert(copy.has_pattern(pattern));
                }
                if copy.fertile() {
                    let pattern = choose|pattern: Seq<Matcher>| copy.has_pattern(pattern);
                    assert(self.has_pattern(pattern));
                }
            }
            if self.fertile() {
                let pattern = choose|pattern: Seq<Matcher>| #[trigger]
                    self.has_pattern(pattern) && depth_of(pattern) == self.min_traversals as nat;
                assert(copy.has_pattern(pattern));
            }
            let branch = choose|branch: Seq<Matcher>| #[trigger]
                self.has_branch(branch) && depth_of(branch) == self.max_traversals as nat;
            assert(copy.has_branch(branch));
            assert forall|pattern: Seq<Matcher>| #[trigger]
                copy.has_pattern(pattern) implies self.min_traversals <= depth_of(pattern) by {
                assert(self.has_pattern(pattern));
            }
            assert forall|branch: Seq<Matcher>| #[trigger] copy.has_branch(branch) implies depth_of(
                branch,
            ) <= self.max_traversals by {
                assert(self.has_branch(branch));
            }
            assert forall|j: int| 0 <= j < copy.literals@.len() implies (
            #[trigger] copy.literals@[j]).1.settled() by {
                assert(self.literals@[j].1.settled());
            }
            assert forall|j: int| 0 <= j < copy.starts_ends_with@.len() implies (
            #[trigger] copy.starts_ends_with@[j]).1.settled() by {
                assert(self.starts_ends_with@[j].1.settled());
            }
        }
    }

    /// What a copy keeps of this node: the patterns and branches, the cached
    /// bounds, and with them well-formedness and settledness.
    pub open spec fn copied_as(&self, copy: PathMatchNode) -> bool {
        &&& copy.alike(*self)
        &&& copy.cached_bounds() == self.cached_bounds()
        &&& self.sound() ==> copy.sound()
        &&& self.settled() ==> copy.settled()
    }
}

impl Clone for PathMatchNode {
    /// A copy of the trie below this node.
    fn clone(&self) -> (copy: PathMatchNode)
        ensures
            self.copied_as(copy),
        decreases self,
    {
        let mut literals: Vec<(PathComponent, PathMatchNode)> = Vec::new();
        let mut i: usize = 0;
        while i < self.literals.len()
            invariant
                i <= self.literals@.len(),
                literals@.len() == i,
                forall|j: int|
                    0 <= j < i ==> (#[trigger] literals@[j]).0@ == self.literals@[j].0@
                        && self.literals@[j].1.copied_as(literals@[j].1),
            decreases self.literals@.len() - i,
        {
            let key = self.literals[i].0.clone();
            let child = self.literals[i].1.clone();
            literals.push((key, child));
            i = i + 1;
        }
        let mut starts_ends_with: Vec<(StartsEndsWith, PathMatchNode)> = Vec::new();
        let mut k: usize = 0;
        while k < self.starts_ends_with.len()
            invariant
                k <= self.starts_ends_with@.len(),
                starts_ends_with@.len() == k,
                forall|j: int|
                    0 <= j < k ==> (#[trigger] starts_ends_with@[j]).0@
                        == self.starts_ends_with@[j].0@ && self.starts_ends_with@[j].1.copied_as(
                        starts_ends_with@[j].1,
                    ),
            decreases self.starts_ends_with@.len() - k,
        {
            let key = self.starts_ends_with[k].0.clone();
            let child = self.starts_ends_with[k].1.clone();
            starts_ends_with.push((key, child));
            k = k + 1;
        }
        let copy = PathMatchNode {
            can_end: self.can_end,
            literals,
            starts_ends_with,
            min_traversals: self.min_traversals,
            max_traversals: self.max_traversals,
        };
        proof {
            self.lemma_copied(copy);
        }
        copy
    }
}

} // verus!
