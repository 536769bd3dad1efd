//! The match trie: compiled patterns merged into one tree of matchers.

use vstd::prelude::*;

use crate::component::PathComponent;
use crate::order::{
    component_before, lemma_component_irreflexive, lemma_wildcard_irreflexive, wildcard_before,
};
use crate::acceptance::depth_of;
use crate::pattern::{Matcher, StartsEndsWith};

use crate::trie::insert::lemma_fits_behind;

mod copy;
mod depth;
mod insert;
mod render;
mod traverse;

verus! {

/// One node of the match trie.
///
/// The children hang on two lists of edges, one keyed by literal components
/// and one keyed by wildcards. In a well-formed node each list stands in the
/// order of its keys, and no key occurs twice in it.
#[derive(Debug)]
pub struct PathMatchNode {
    can_end: bool,
    literals: Vec<(PathComponent, PathMatchNode)>,
    starts_ends_with: Vec<(StartsEndsWith, PathMatchNode)>,
    min_traversals: usize,
    max_traversals: usize,
}

impl PathMatchNode {
    /// The matcher on the `i`-th literal edge.
    pub closed spec fn literal_key(&self, i: int) -> Matcher {
        Matcher::Literal(self.literals@[i].0@)
    }

    /// The matcher on the `i`-th wildcard edge.
    pub closed spec fn wildcard_key(&self, i: int) -> Matcher {
        Matcher::StartsEndsWith(self.starts_ends_with@[i].0@)
    }

    /// Whether an edge labelled `key` goes from this node to `child`.
    pub closed spec fn edge(&self, key: Matcher, child: PathMatchNode) -> bool {
        ||| exists|i: int|
            #![trigger self.literals@[i]]
            0 <= i < self.literals@.len() && self.literal_key(i) == key && self.literals@[i].1
                == child
        ||| exists|i: int|
            #![trigger self.starts_ends_with@[i]]
            0 <= i < self.starts_ends_with@.len() && self.wildcard_key(i) == key
                && self.starts_ends_with@[i].1 == child
    }

    /// Whether following `labels` edge by edge from this node arrives at a
    /// node; with `terminal`, at a node where a pattern ends.
    pub closed spec fn leads(&self, labels: Seq<Matcher>, terminal: bool) -> bool
        decreases labels.len(),
    {
        if labels.len() == 0 {
            !terminal || self.can_end
        } else {
            exists|child: PathMatchNode| #[trigger]
                self.edge(labels[0], child) && child.leads(labels.skip(1), terminal)
        }
    }

    /// Whether `pattern` has been inserted below this node.
    pub open spec fn has_pattern(&self, pattern: Seq<Matcher>) -> bool {
        self.leads(pattern, true)
    }

    /// Whether `branch` is the way from this node to one of its descendants
    /// (or to itself, for the empty branch).
    pub open spec fn has_branch(&self, branch: Seq<Matcher>) -> bool {
        self.leads(branch, false)
    }

    /// The patterns held by the trie below this node.
    pub open spec fn patterns(&self) -> Set<Seq<Matcher>> {
        Set::new(|pattern: Seq<Matcher>| self.has_pattern(pattern))
    }

    /// The ways from this node to its descendants.
    pub open spec fn branches(&self) -> Set<Seq<Matcher>> {
        Set::new(|branch: Seq<Matcher>| self.has_branch(branch))
    }

    /// Some pattern ends at or below this node.
    pub open spec fn fertile(&self) -> bool {
        exists|pattern: Seq<Matcher>| self.has_pattern(pattern)
    }

    /// No branch is longer than a `usize` can count.
    pub open spec fn bounded(&self) -> bool {
        forall|branch: Seq<Matcher>| #[trigger]
            self.has_branch(branch) ==> branch.len() <= usize::MAX
    }

    /// The shape that insertion keeps: the edges of each list stand in the
    /// order of their keys, so that no key occurs twice, and below every
    /// edge some pattern ends.
    pub closed spec fn sound(&self) -> bool
        decreases self,
    {
        &&& forall|i: int, j: int|
            0 <= i < j < self.literals@.len() ==> component_before(
                (#[trigger] self.literals@[i]).0@,
                (#[trigger] self.literals@[j]).0@,
            )
        &&& forall|i: int, j: int|
            0 <= i < j < self.starts_ends_with@.len() ==> wildcard_before(
                (#[trigger] self.starts_ends_with@[i]).0@,
                (#[trigger] self.starts_ends_with@[j]).0@,
            )
        &&& forall|i: int|
            0 <= i < self.literals@.len() ==> (#[trigger] self.literals@[i]).1.sound()
                && self.literals@[i].1.fertile()
        &&& forall|i: int|
            0 <= i < self.starts_ends_with@.len() ==> (#[trigger] self.starts_ends_with@[i]).1.sound()
                && self.starts_ends_with@[i].1.fertile()
    }

    /// Well-formedness: what `default` establishes and `insert` keeps.
    pub open spec fn wf(&self) -> bool {
        self.sound() && self.bounded()
    }

    /// The cached depth bounds, least first.
    pub closed spec fn cached_bounds(&self) -> (usize, usize) {
        (self.min_traversals, self.max_traversals)
    }

    /// A node without edges where no pattern ends.
    closed spec fn blank(&self) -> bool {
        &&& !self.can_end
        &&& self.literals@.len() == 0
        &&& self.starts_ends_with@.len() == 0
        &&& self.min_traversals == 0
        &&& self.max_traversals == usize::MAX
    }

    /// The empty branch always exists.
    pub proof fn lemma_leads_nowhere(&self)
        ensures
            self.has_branch(seq![]),
    {
    }

    /// A blank node has no pattern and only the empty branch.
    proof fn lemma_blank(&self)
        requires
            self.blank(),
        ensures
            forall|labels: Seq<Matcher>, terminal: bool|
                self.leads(labels, terminal) <==> labels.len() == 0 && !terminal,
            forall|key: Matcher, child: PathMatchNode| !self.edge(key, child),
            self.sound(),
    {
    }

    /// The child behind an edge of a sound node is sound and fertile.
    proof fn lemma_sound_child(&self, key: Matcher, child: PathMatchNode)
        requires
            self.sound(),
            self.edge(key, child),
        ensures
            child.sound(),
            child.fertile(),
    {
        if exists|i: int|
            #![trigger self.literals@[i]]
            0 <= i < self.literals@.len() && self.literal_key(i) == key && self.literals@[i].1
                == child {
            let i = choose|i: int|
                #![trigger self.literals@[i]]
                0 <= i < self.literals@.len() && self.literal_key(i) == key && self.literals@[i].1
                    == child;
            assert(self.literals@[i].1.sound());
        } else {
            let i = choose|i: int|
                #![trigger self.starts_ends_with@[i]]
                0 <= i < self.starts_ends_with@.len() && self.wildcard_key(i) == key
                    && self.starts_ends_with@[i].1 == child;
            assert(self.starts_ends_with@[i].1.sound());
        }
    }

    /// In a sound node a key leads to one child only: patterns that begin
    /// alike go through the same nodes.
    pub proof fn lemma_one_child_per_key(&self, key: Matcher, first: PathMatchNode, second: PathMatchNode)
        requires
            self.sound(),
            self.edge(key, first),
            self.edge(key, second),
        ensures
            first == second,
    {
        match key {
            Matcher::Literal(literal) => {
                let i = choose|i: int|
                    #![trigger self.literals@[i]]
                    0 <= i < self.literals@.len() && self.literal_key(i) == key
                        && self.literals@[i].1 == first;
                let j = choose|j: int|
                    #![trigger self.literals@[j]]
                    0 <= j < self.literals@.len() && self.literal_key(j) == key
                        && self.literals@[j].1 == second;
                lemma_component_irreflexive(literal);
                if i < j {
                    assert(component_before(self.literals@[i].0@, self.literals@[j].0@));
                } else if j < i {
                    assert(component_before(self.literals@[j].0@, self.literals@[i].0@));
                }
            },
            Matcher::StartsEndsWith(wildcard) => {
                let i = choose|i: int|
                    #![trigger self.starts_ends_with@[i]]
                    0 <= i < self.starts_ends_with@.len() && self.wildcard_key(i) == key
                        && self.starts_ends_with@[i].1 == first;
                let j = choose|j: int|
                    #![trigger self.starts_ends_with@[j]]
                    0 <= j < self.starts_ends_with@.len() && self.wildcard_key(j) == key
                        && self.starts_ends_with@[j].1 == second;
                lemma_wildcard_irreflexive(wildcard);
                if i < j {
                    assert(wildcard_before(
                        self.starts_ends_with@[i].0@,
                        self.starts_ends_with@[j].0@,
                    ));
                } else if j < i {
                    assert(wildcard_before(
                        self.starts_ends_with@[j].0@,
                        self.starts_ends_with@[i].0@,
                    ));
                }
            },
        }
    }

    /// Where an edge leads is reached through that edge.
    proof fn lemma_through(&self, key: Matcher, child: PathMatchNode, rest: Seq<Matcher>, terminal: bool)
        requires
            self.edge(key, child),
            child.leads(rest, terminal),
        ensures
            self.leads(seq![key] + rest, terminal),
    {
        let labels = seq![key] + rest;
        assert(labels.skip(1) =~= rest);
        assert(labels[0] == key);
    }

    /// Every pattern is a branch.
    pub proof fn lemma_pattern_is_branch(&self, pattern: Seq<Matcher>)
        requires
            self.has_pattern(pattern),
        ensures
            self.has_branch(pattern),
        decreases pattern.len(),
    {
        if pattern.len() > 0 {
            let child = choose|child: PathMatchNode| #[trigger]
                self.edge(pattern[0], child) && child.leads(pattern.skip(1), true);
            child.lemma_pattern_is_branch(pattern.skip(1));
        }
    }

    /// The beginning of a branch is a branch.
    pub proof fn lemma_branch_prefix(&self, branch: Seq<Matcher>, k: int)
        requires
            self.has_branch(branch),
            0 <= k <= branch.len(),
        ensures
            self.has_branch(branch.take(k)),
        decreases branch.len(),
    {
        if k > 0 {
            let head = branch.take(k);
            assert(head[0] == branch[0]);
            assert(head.skip(1) =~= branch.skip(1).take(k - 1));
            let child = choose|child: PathMatchNode| #[trigger]
                self.edge(branch[0], child) && child.leads(branch.skip(1), false);
            child.lemma_branch_prefix(branch.skip(1), k - 1);
        }
    }

    /// In a sound node every branch but the empty one goes on to a pattern.
    pub proof fn lemma_branch_extends(&self, branch: Seq<Matcher>) -> (pattern: Seq<Matcher>)
        requires
            self.sound(),
            self.has_branch(branch),
            branch.len() > 0 || self.fertile(),
        ensures
            self.has_pattern(pattern),
            branch.is_prefix_of(pattern),
        decreases branch.len(),
    {
        if branch.len() == 0 {
            choose|pattern: Seq<Matcher>| self.has_pattern(pattern)
        } else {
            let child = choose|child: PathMatchNode| #[trigger]
                self.edge(branch[0], child) && child.leads(branch.skip(1), false);
            self.lemma_sound_child(branch[0], child);
            let rest = child.lemma_branch_extends(branch.skip(1));
            self.lemma_through(branch[0], child, rest, true);
            let pattern = seq![branch[0]] + rest;
            lemma_prefix_behind(branch, pattern);
            pattern
        }
    }

    /// A node without edges where no pattern ends.
    fn fresh() -> (node: PathMatchNode)
        ensures
            node.blank(),
    {
        PathMatchNode {
            can_end: false,
            literals: Vec::new(),
            starts_ends_with: Vec::new(),
            min_traversals: 0,
            max_traversals: usize::MAX,
        }
    }

    /// The two nodes hold the same patterns and the same branches.
    pub open spec fn alike(&self, other: PathMatchNode) -> bool {
        forall|labels: Seq<Matcher>, terminal: bool|
            self.leads(labels, terminal) == #[trigger] other.leads(labels, terminal)
    }

    /// Nodes whose edges carry the same labels and lead to alike children
    /// are alike.
    proof fn lemma_alike(&self, other: PathMatchNode)
        requires
            self.can_end == other.can_end,
            self.literals@.len() == other.literals@.len(),
            self.starts_ends_with@.len() == other.starts_ends_with@.len(),
            forall|i: int|
                0 <= i < self.literals@.len() ==> (#[trigger] self.literals@[i]).0@
                    == other.literals@[i].0@ && self.literals@[i].1.alike(other.literals@[i].1),
            forall|i: int|
                0 <= i < self.starts_ends_with@.len() ==> (#[trigger] self.starts_ends_with@[i]).0@
                    == other.starts_ends_with@[i].0@ && self.starts_ends_with@[i].1.alike(
                    other.starts_ends_with@[i].1,
                ),
        ensures
            self.alike(other),
    {
        assert forall|labels: Seq<Matcher>, terminal: bool|
            self.leads(labels, terminal) == #[trigger] other.leads(labels, terminal) by {
            if labels.len() > 0 {
                let tail = labels.skip(1);
                if self.leads(labels, terminal) {
                    let child = choose|child: PathMatchNode| #[trigger]
                        self.edge(labels[0], child) && child.leads(tail, terminal);
                    if exists|i: int|
                        #![trigger self.literals@[i]]
                        0 <= i < self.literals@.len() && self.literal_key(i) == labels[0]
                            && self.literals@[i].1 == child {
                        let i = choose|i: int|
                            #![trigger self.literals@[i]]
                            0 <= i < self.literals@.len() && self.literal_key(i) == labels[0]
                                && self.literals@[i].1 == child;
                        let twin = other.literals@[i].1;
                        assert(other.literal_key(i) == labels[0]);
                        assert(other.edge(labels[0], twin) && twin.leads(tail, terminal));
                    } else {
                        let i = choose|i: int|
                            #![trigger self.starts_ends_with@[i]]
                            0 <= i < self.starts_ends_with@.len() && self.wildcard_key(i)
                                == labels[0] && self.starts_ends_with@[i].1 == child;
                        let twin = other.starts_ends_with@[i].1;
                        assert(other.wildcard_key(i) == labels[0]);
                        assert(other.edge(labels[0], twin) && twin.leads(tail, terminal));
                    }
                }
                if other.leads(labels, terminal) {
                    let child = choose|child: PathMatchNode| #[trigger]
                        other.edge(labels[0], child) && child.leads(tail, terminal);
                    if exists|i: int|
                        #![trigger other.literals@[i]]
                        0 <= i < other.literals@.len() && other.literal_key(i) == labels[0]
                            && other.literals@[i].1 == child {
                        let i = choose|i: int|
                            #![trigger other.literals@[i]]
                            0 <= i < other.literals@.len() && other.literal_key(i) == labels[0]
                                && other.literals@[i].1 == child;
                        let twin = self.literals@[i].1;
                        assert(self.literal_key(i) == labels[0]);
                        assert(self.edge(labels[0], twin) && twin.leads(tail, terminal));
                    } else {
                        let i = choose|i: int|
                            #![trigger other.starts_ends_with@[i]]
                            0 <= i < other.starts_ends_with@.len() && other.wildcard_key(i)
                                == labels[0] && other.starts_ends_with@[i].1 == child;
                        let twin = self.starts_ends_with@[i].1;
                        assert(self.wildcard_key(i) == labels[0]);
                        assert(self.edge(labels[0], twin) && twin.leads(tail, terminal));
                    }
                }
            }
        }
    }

    /// `bound` is the depth of the deepest branch.
    pub open spec fn is_max_depth(&self, bound: nat) -> bool {
        &&& forall|branch: Seq<Matcher>| #[trigger]
            self.has_branch(branch) ==> depth_of(branch) <= bound
        &&& exists|branch: Seq<Matcher>| #[trigger]
            self.has_branch(branch) && depth_of(branch) == bound
    }

    /// `bound` is the depth of the shallowest pattern, and the greatest
    /// `usize` when there is no pattern at all.
    pub open spec fn is_min_depth(&self, bound: nat) -> bool {
        if self.fertile() {
            &&& forall|pattern: Seq<Matcher>| #[trigger]
                self.has_pattern(pattern) ==> bound <= depth_of(pattern)
            &&& exists|pattern: Seq<Matcher>| #[trigger]
                self.has_pattern(pattern) && depth_of(pattern) == bound
        } else {
            bound == usize::MAX
        }
    }

    /// The cached depth bounds of this node and of every node below it are
    /// the true ones.
    pub closed spec fn settled(&self) -> bool
        decreases self,
    {
        &&& self.is_min_depth(self.min_traversals as nat)
        &&& self.is_max_depth(self.max_traversals as nat)
        &&& forall|i: int|
            0 <= i < self.literals@.len() ==> (#[trigger] self.literals@[i]).1.settled()
        &&& forall|i: int|
            0 <= i < self.starts_ends_with@.len() ==> (
            #[trigger] self.starts_ends_with@[i]).1.settled()
    }

    /// After a recomputation the cached bounds are the true ones.
    pub proof fn lemma_settled_bounds(&self)
        requires
            self.settled(),
        ensures
            self.is_min_depth(self.cached_bounds().0 as nat),
            self.is_max_depth(self.cached_bounds().1 as nat),
    {
    }

    /// Whether the node has no children.
    pub fn is_empty(&self) -> (empty: bool)
        ensures
            empty == (forall|branch: Seq<Matcher>| self.has_branch(branch) ==> branch.len() == 0),
    {
        let empty = self.starts_ends_with.is_empty() && self.literals.is_empty();
        proof {
            if self.literals@.len() > 0 {
                let child = self.literals@[0].1;
                self.lemma_through(self.literal_key(0), child, seq![], false);
            } else if self.starts_ends_with@.len() > 0 {
                let child = self.starts_ends_with@[0].1;
                self.lemma_through(self.wildcard_key(0), child, seq![], false);
            }
        }
        empty
    }
}


/// A beginning stays a beginning when the same label is put in front.
proof fn lemma_prefix_behind(branch: Seq<Matcher>, pattern: Seq<Matcher>)
    requires
        branch.len() > 0,
        pattern.len() > 0,
        branch[0] == pattern[0],
        branch.skip(1).is_prefix_of(pattern.skip(1)),
    ensures
        branch.is_prefix_of(pattern),
{
    lemma_fits_behind(branch, pattern, false);
}

impl Default for PathMatchNode {
    /// A trie that holds no pattern.
    fn default() -> (node: PathMatchNode)
        ensures
            node.patterns() == Set::<Seq<Matcher>>::empty(),
            node.branches() == set![Seq::<Matcher>::empty()],
            node.wf(),
            node.cached_bounds() == (0usize, usize::MAX),
    {
        let node = PathMatchNode::fresh();
        proof {
            node.lemma_blank();
            assert(node.patterns() =~= Set::<Seq<Matcher>>::empty());
            assert(node.branches() =~= set![Seq::<Matcher>::empty()]) by {
                assert forall|branch: Seq<Matcher>|
                    node.branches().contains(branch) <==> set![
                        Seq::<Matcher>::empty(),
                    ].contains(branch) by {
                    if branch.len() == 0 {
                        assert(branch =~= Seq::<Matcher>::empty());
                    }
                }
            }
        }
        node
    }
}

} // verus!
