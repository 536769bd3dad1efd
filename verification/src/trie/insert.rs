//! Inserting patterns into the trie.

use vstd::prelude::*;

use crate::order::{
    component_before, component_precedes, lemma_component_total, lemma_component_transitive,
    lemma_wildcard_total, lemma_wildcard_transitive, wildcard_before, wildcard_precedes,
};
use crate::pattern::{Matcher, PatternComponent};
use crate::trie::PathMatchNode;

verus! {

/// The list `after` is the list `before` with `later` in the place of the
/// child `child` of the edge at `i`.
pub open spec fn replaced<K>(
    before: Seq<(K, PathMatchNode)>,
    after: Seq<(K, PathMatchNode)>,
    i: int,
    child: PathMatchNode,
    later: PathMatchNode,
) -> bool {
    &&& 0 <= i < before.len()
    &&& after.len() == before.len()
    &&& before[i].1 == child
    &&& after[i].0 == before[i].0
    &&& after[i].1 == later
    &&& forall|j: int| 0 <= j < before.len() && j != i ==> #[trigger] after[j] == before[j]
}

/// The list `after` is the list `before` with one more edge, which stands
/// at `i` and leads to `later`.
pub open spec fn inserted<K>(
    before: Seq<(K, PathMatchNode)>,
    after: Seq<(K, PathMatchNode)>,
    i: int,
    later: PathMatchNode,
) -> bool {
    &&& 0 <= i <= before.len()
    &&& after.len() == before.len() + 1
    &&& after[i].1 == later
    &&& forall|j: int| 0 <= j < i ==> #[trigger] after[j] == before[j]
    &&& forall|j: int| i <= j < before.len() ==> after[j + 1] == #[trigger] before[j]
}

/// Whether `labels` is what inserting `added` makes reachable: `added`
/// itself where a pattern must end, any beginning of it otherwise.
pub open spec fn fits(labels: Seq<Matcher>, added: Seq<Matcher>, terminal: bool) -> bool {
    if terminal {
        labels == added
    } else {
        labels.is_prefix_of(added)
    }
}

/// Fitting goes label by label.
pub proof fn lemma_fits_behind(labels: Seq<Matcher>, added: Seq<Matcher>, terminal: bool)
    requires
        labels.len() > 0,
    ensures
        fits(labels, added, terminal) <==> added.len() > 0 && labels[0] == added[0] && fits(
            labels.skip(1),
            added.skip(1),
            terminal,
        ),
{
    let tail = labels.skip(1);
    let rest = added.skip(1);
    if added.len() > 0 && labels[0] == added[0] && fits(tail, rest, terminal) {
        assert forall|j: int| 0 <= j < labels.len() implies labels[j] == added[j] by {
            if j > 0 {
                assert(labels[j] == tail[j - 1]);
                if terminal {
                    assert(rest[j - 1] == added[j]);
                } else {
                    assert(rest.subrange(0, tail.len() as int)[j - 1] == rest[j - 1]);
                }
            }
        }
        if terminal {
            assert(labels.len() == added.len());
            assert(labels =~= added);
        } else {
            assert(labels =~= added.subrange(0, labels.len() as int));
        }
    }
    if fits(labels, added, terminal) {
        if terminal {
            assert(tail =~= rest);
        } else {
            assert(labels[0] == added.subrange(0, labels.len() as int)[0]);
            assert forall|j: int| 0 <= j < tail.len() implies tail[j] == rest[j] by {
                assert(labels[j + 1] == added.subrange(0, labels.len() as int)[j + 1]);
            }
            assert(tail =~= rest.subrange(0, tail.len() as int));
        }
    }
}

impl PathMatchNode {
    /// How the trie grows when `added` is inserted: `added` becomes a
    /// pattern, its beginnings become branches, and nothing else changes.
    pub open spec fn grown(before: PathMatchNode, after: PathMatchNode, added: Seq<Matcher>) -> bool {
        forall|labels: Seq<Matcher>, terminal: bool|
            #![trigger after.leads(labels, terminal)]
            after.leads(labels, terminal) <==> before.leads(labels, terminal) || fits(
                labels,
                added,
                terminal,
            )
    }

    /// Growing the child behind an edge by the rest of a pattern grows the
    /// node by the whole pattern.
    proof fn lemma_graft(
        before: PathMatchNode,
        after: PathMatchNode,
        child: PathMatchNode,
        later: PathMatchNode,
        added: Seq<Matcher>,
    )
        requires
            added.len() > 0,
            after.can_end == before.can_end,
            forall|key: Matcher, other: PathMatchNode| #[trigger]
                after.edge(key, other) ==> before.edge(key, other) || (key == added[0] && other
                    == later),
            forall|key: Matcher, other: PathMatchNode| #[trigger]
                before.edge(key, other) ==> after.edge(key, other) || (key == added[0] && other
                    == child),
            after.edge(added[0], later),
            before.edge(added[0], child) || child.blank(),
            Self::grown(child, later, added.skip(1)),
        ensures
            Self::grown(before, after, added),
    {
        let rest = added.skip(1);
        if child.blank() {
            child.lemma_blank();
        }
        assert forall|labels: Seq<Matcher>, terminal: bool|
            #![trigger after.leads(labels, terminal)]
            after.leads(labels, terminal) <==> before.leads(labels, terminal) || fits(
                labels,
                added,
                terminal,
            ) by {
            if labels.len() > 0 {
                let tail = labels.skip(1);
                lemma_fits_behind(labels, added, terminal);
                if after.leads(labels, terminal) {
                    let other = choose|other: PathMatchNode| #[trigger]
                        after.edge(labels[0], other) && other.leads(tail, terminal);
                    if before.edge(labels[0], other) {
                    } else {
                        assert(later.leads(tail, terminal));
                        if child.leads(tail, terminal) && child.blank() {
                            assert(tail.is_prefix_of(rest));
                        }
                    }
                }
                if before.leads(labels, terminal) {
                    let other = choose|other: PathMatchNode| #[trigger]
                        before.edge(labels[0], other) && other.leads(tail, terminal);
                    if after.edge(labels[0], other) {
                    } else {
                        assert(later.leads(tail, terminal));
                    }
                }
                if fits(labels, added, terminal) {
                    assert(later.leads(tail, terminal));
                }
            } else {
                if terminal {
                    assert(!fits(labels, added, terminal));
                }
            }
        }
    }

    /// The node's own fields after the child for `key` was looked up or
    /// made at position `i` of its list. `child` is that child as it was
    /// found (blank when it had to be made), `later` what is left in its
    /// place. A new edge goes where the order of the keys puts it.
    closed spec fn grafted(
        before: PathMatchNode,
        after: PathMatchNode,
        key: Matcher,
        i: int,
        found: bool,
        child: PathMatchNode,
        later: PathMatchNode,
    ) -> bool {
        &&& after.can_end == before.can_end
        &&& after.min_traversals == 0
        &&& after.max_traversals == usize::MAX
        &&& match key {
            Matcher::Literal(literal) => {
                &&& after.starts_ends_with@ == before.starts_ends_with@
                &&& after.literals@[i].0@ == literal
                &&& if found {
                    replaced(before.literals@, after.literals@, i, child, later)
                } else {
                    &&& inserted(before.literals@, after.literals@, i, later)
                    &&& child.blank()
                    &&& before.sound() ==> forall|j: int|
                        0 <= j < before.literals@.len() ==> if j < i {
                            component_before((#[trigger] before.literals@[j]).0@, literal)
                        } else {
                            component_before(literal, before.literals@[j].0@)
                        }
                }
            },
            Matcher::StartsEndsWith(wildcard) => {
                &&& after.literals@ == before.literals@
                &&& after.starts_ends_with@[i].0@ == wildcard
                &&& if found {
                    replaced(before.starts_ends_with@, after.starts_ends_with@, i, child, later)
                } else {
                    &&& inserted(before.starts_ends_with@, after.starts_ends_with@, i, later)
                    &&& child.blank()
                    &&& before.sound() ==> forall|j: int|
                        0 <= j < before.starts_ends_with@.len() ==> if j < i {
                            wildcard_before((#[trigger] before.starts_ends_with@[j]).0@, wildcard)
                        } else {
                            wildcard_before(wildcard, before.starts_ends_with@[j].0@)
                        }
                }
            },
        }
    }

    /// What a graft among the literal edges means for the edges.
    proof fn lemma_grafted_literal(
        before: PathMatchNode,
        after: PathMatchNode,
        key: Matcher,
        i: int,
        found: bool,
        child: PathMatchNode,
        later: PathMatchNode,
    )
        requires
            key is Literal,
            Self::grafted(before, after, key, i, found, child, later),
        ensures
            forall|label: Matcher, other: PathMatchNode| #[trigger]
                after.edge(label, other) ==> before.edge(label, other) || (label == key && other
                    == later),
            forall|label: Matcher, other: PathMatchNode| #[trigger]
                before.edge(label, other) ==> after.edge(label, other) || (label == key && other
                    == child),
            after.edge(key, later),
            before.edge(key, child) || child.blank(),
            before.sound() ==> child.blank() || child.sound(),
    {
        assert(after.literal_key(i) == key && after.literals@[i].1 == later);
        if found {
            assert(before.literal_key(i) == key && before.literals@[i].1 == child);
            if before.sound() {
                assert(before.literals@[i].1.sound());
            }
        }
        assert forall|label: Matcher, other: PathMatchNode| #[trigger]
            after.edge(label, other) implies before.edge(label, other) || (label == key && other
            == later) by {
            if exists|j: int|
                #![trigger after.literals@[j]]
                0 <= j < after.literals@.len() && after.literal_key(j) == label
                    && after.literals@[j].1 == other {
                let j = choose|j: int|
                    #![trigger after.literals@[j]]
                    0 <= j < after.literals@.len() && after.literal_key(j) == label
                        && after.literals@[j].1 == other;
                if j != i {
                    if found || j < i {
                        assert(after.literals@[j] == before.literals@[j]);
                    } else {
                        assert(after.literals@[j - 1 + 1] == before.literals@[j - 1]);
                        assert(before.literal_key(j - 1) == label);
                    }
                }
            } else {
                let j = choose|j: int|
                    #![trigger after.starts_ends_with@[j]]
                    0 <= j < after.starts_ends_with@.len() && after.wildcard_key(j) == label
                        && after.starts_ends_with@[j].1 == other;
                assert(before.starts_ends_with@[j] == after.starts_ends_with@[j]);
            }
        }
        assert forall|label: Matcher, other: PathMatchNode| #[trigger]
            before.edge(label, other) implies after.edge(label, other) || (label == key && other
            == child) by {
            if exists|j: int|
                #![trigger before.literals@[j]]
                0 <= j < before.literals@.len() && before.literal_key(j) == label
                    && before.literals@[j].1 == other {
                let j = choose|j: int|
                    #![trigger before.literals@[j]]
                    0 <= j < before.literals@.len() && before.literal_key(j) == label
                        && before.literals@[j].1 == other;
                if found {
                    if j != i {
                        assert(after.literals@[j] == before.literals@[j]);
                    }
                } else if j < i {
                    assert(after.literals@[j] == before.literals@[j]);
                } else {
                    assert(after.literals@[j + 1] == before.literals@[j]);
                    assert(after.literal_key(j + 1) == label);
                }
            } else {
                let j = choose|j: int|
                    #![trigger before.starts_ends_with@[j]]
                    0 <= j < before.starts_ends_with@.len() && before.wildcard_key(j) == label
                        && before.starts_ends_with@[j].1 == other;
                assert(before.starts_ends_with@[j] == after.starts_ends_with@[j]);
            }
        }
        if !found {
            child.lemma_blank();
        }
    }

    /// What a graft among the wildcard edges means for the edges.
    proof fn lemma_grafted_wildcard(
        before: PathMatchNode,
        after: PathMatchNode,
        key: Matcher,
        i: int,
        found: bool,
        child: PathMatchNode,
        later: PathMatchNode,
    )
        requires
            key is StartsEndsWith,
            Self::grafted(before, after, key, i, found, child, later),
        ensures
            forall|label: Matcher, other: PathMatchNode| #[trigger]
                after.edge(label, other) ==> before.edge(label, other) || (label == key && other
                    == later),
            forall|label: Matcher, other: PathMatchNode| #[trigger]
                before.edge(label, other) ==> after.edge(label, other) || (label == key && other
                    == child),
            after.edge(key, later),
            before.edge(key, child) || child.blank(),
            before.sound() ==> child.blank() || child.sound(),
    {
        assert(after.wildcard_key(i) == key && after.starts_ends_with@[i].1 == later);
        if found {
            assert(before.wildcard_key(i) == key && before.starts_ends_with@[i].1 == child);
            if before.sound() {
                assert(before.starts_ends_with@[i].1.sound());
            }
        }
        assert forall|label: Matcher, other: PathMatchNode| #[trigger]
            after.edge(label, other) implies before.edge(label, other) || (label == key && other
            == later) by {
            if exists|j: int|
                #![trigger after.literals@[j]]
                0 <= j < after.literals@.len() && after.literal_key(j) == label
                    && after.literals@[j].1 == other {
                let j = choose|j: int|
                    #![trigger after.literals@[j]]
                    0 <= j < after.literals@.len() && after.literal_key(j) == label
                        && after.literals@[j].1 == other;
                assert(before.literals@[j] == after.literals@[j]);
            } else {
                let j = choose|j: int|
                    #![trigger after.starts_ends_with@[j]]
                    0 <= j < after.starts_ends_with@.len() && after.wildcard_key(j) == label
                        && after.starts_ends_with@[j].1 == other;
                if j != i {
                    if found || j < i {
                        assert(after.starts_ends_with@[j] == before.starts_ends_with@[j]);
                    } else {
                        assert(after.starts_ends_with@[j - 1 + 1] == before.starts_ends_with@[j
                            - 1]);
                        assert(before.wildcard_key(j - 1) == label);
                    }
                }
            }
        }
        assert forall|label: Matcher, other: PathMatchNode| #[trigger]
            before.edge(label, other) implies after.edge(label, other) || (label == key && other
            == child) by {
            if exists|j: int|
                #![trigger before.literals@[j]]
                0 <= j < before.literals@.len() && before.literal_key(j) == label
                    && before.literals@[j].1 == other {
                let j = choose|j: int|
                    #![trigger before.literals@[j]]
                    0 <= j < before.literals@.len() && before.literal_key(j) == label
                        && before.literals@[j].1 == other;
                assert(before.literals@[j] == after.literals@[j]);
            } else {
                let j = choose|j: int|
                    #![trigger before.starts_ends_with@[j]]
                    0 <= j < before.starts_ends_with@.len() && before.wildcard_key(j) == label
                        && before.starts_ends_with@[j].1 == other;
                if found {
                    if j != i {
                        assert(after.starts_ends_with@[j] == before.starts_ends_with@[j]);
                    }
                } else if j < i {
                    assert(after.starts_ends_with@[j] == before.starts_ends_with@[j]);
                } else {
                    assert(after.starts_ends_with@[j + 1] == before.starts_ends_with@[j]);
                    assert(after.wildcard_key(j + 1) == label);
                }
            }
        }
        if !found {
            child.lemma_blank();
        }
    }

    /// A graft keeps a sound node sound, once the grafted child is sound and
    /// a pattern ends below it.
    proof fn lemma_grafted_sound(
        before: PathMatchNode,
        after: PathMatchNode,
        key: Matcher,
        i: int,
        found: bool,
        child: PathMatchNode,
        later: PathMatchNode,
    )
        requires
            Self::grafted(before, after, key, i, found, child, later),
            before.sound(),
            later.sound(),
            later.fertile(),
        ensures
            after.sound(),
    {
        match key {
            Matcher::Literal(literal) => {
                assert forall|a: int, b: int|
                    0 <= a < b < after.literals@.len() implies component_before(
                    (#[trigger] after.literals@[a]).0@,
                    (#[trigger] after.literals@[b]).0@,
                ) by {
                    let from = if found || a < i {
                        a
                    } else {
                        a - 1
                    };
                    let to = if found || b < i {
                        b
                    } else {
                        b - 1
                    };
                    if a != i {
                        assert(after.literals@[from + (a - from)].0@ == before.literals@[from].0@);
                    }
                    if b != i {
                        assert(after.literals@[to + (b - to)].0@ == before.literals@[to].0@);
                    }
                    if found {
                        assert(after.literals@[i].0 == before.literals@[i].0);
                        assert(component_before(before.literals@[a].0@, before.literals@[b].0@));
                    } else if a != i && b != i {
                        assert(component_before(
                            before.literals@[from].0@,
                            before.literals@[to].0@,
                        ));
                    }
                }
                assert forall|a: int| 0 <= a < after.literals@.len() implies (
                #[trigger] after.literals@[a]).1.sound() && after.literals@[a].1.fertile() by {
                    if a != i {
                        let from = if found || a < i {
                            a
                        } else {
                            a - 1
                        };
                        assert(after.literals@[from + (a - from)] == before.literals@[from]);
                        assert(before.literals@[from].1.sound());
                    }
                }
                assert forall|a: int| 0 <= a < after.starts_ends_with@.len() implies (
                #[trigger] after.starts_ends_with@[a]).1.sound()
                    && after.starts_ends_with@[a].1.fertile() by {
                    assert(before.starts_ends_with@[a].1.sound());
                }
            },
            Matcher::StartsEndsWith(wildcard) => {
                assert forall|a: int, b: int|
                    0 <= a < b < after.starts_ends_with@.len() implies wildcard_before(
                    (#[trigger] after.starts_ends_with@[a]).0@,
                    (#[trigger] after.starts_ends_with@[b]).0@,
                ) by {
                    let from = if found || a < i {
                        a
                    } else {
                        a - 1
                    };
                    let to = if found || b < i {
                        b
                    } else {
                        b - 1
                    };
                    if a != i {
                        assert(after.starts_ends_with@[from + (a - from)].0@
                            == before.starts_ends_with@[from].0@);
                    }
                    if b != i {
                        assert(after.starts_ends_with@[to + (b - to)].0@
                            == before.starts_ends_with@[to].0@);
                    }
                    if found {
                        assert(after.starts_ends_with@[i].0 == before.starts_ends_with@[i].0);
                        assert(wildcard_before(
                            before.starts_ends_with@[a].0@,
                            before.starts_ends_with@[b].0@,
                        ));
                    } else if a != i && b != i {
                        assert(wildcard_before(
                            before.starts_ends_with@[from].0@,
                            before.starts_ends_with@[to].0@,
                        ));
                    }
                }
                assert forall|a: int| 0 <= a < after.starts_ends_with@.len() implies (
                #[trigger] after.starts_ends_with@[a]).1.sound()
                    && after.starts_ends_with@[a].1.fertile() by {
                    if a != i {
                        let from = if found || a < i {
                            a
                        } else {
                            a - 1
                        };
                        assert(after.starts_ends_with@[from + (a - from)]
                            == before.starts_ends_with@[from]);
                        assert(before.starts_ends_with@[from].1.sound());
                    }
                }
                assert forall|a: int| 0 <= a < after.literals@.len() implies (
                #[trigger] after.literals@[a]).1.sound() && after.literals@[a].1.fertile() by {
                    assert(before.literals@[a].1.sound());
                }
            },
        }
    }

    /// Looks up the child behind the edge for `component`, making a blank
    /// one when there is none, and resets the cached depth bounds. The ghost
    /// values are the position of that edge in its list and whether it was
    /// there before.
    fn insert_component(&mut self, component: PatternComponent) -> (found: (
        Ghost<(int, bool)>,
        &mut PathMatchNode,
    ))
        ensures
            Self::grafted(
                *old(self),
                *final(self),
                component@,
                found.0@.0,
                found.0@.1,
                *found.1,
                *final(found.1),
            ),
    {
        self.min_traversals = 0;
        self.max_traversals = usize::MAX;
        match component {
            PatternComponent::Literal(literal) => {
                let mut i: usize = 0;
                while i < self.literals.len() && component_precedes(&self.literals[i].0, &literal)
                    invariant
                        i <= self.literals@.len(),
                        self.literals@ == old(self).literals@,
                        forall|j: int|
                            0 <= j < i ==> component_before(
                                (#[trigger] self.literals@[j]).0@,
                                literal@,
                            ),
                    decreases self.literals@.len() - i,
                {
                    i = i + 1;
                }
                let known = i < self.literals.len() && self.literals[i].0 == literal;
                if !known {
                    proof {
                        if old(self).sound() {
                            assert forall|j: int| i <= j < self.literals@.len() implies component_before(
                                literal@,
                                (#[trigger] self.literals@[j]).0@,
                            ) by {
                                lemma_component_total(self.literals@[i as int].0@, literal@);
                                if j > i {
                                    lemma_component_transitive(
                                        literal@,
                                        self.literals@[i as int].0@,
                                        self.literals@[j].0@,
                                    );
                                }
                            }
                        }
                    }
                    self.literals.insert(i, (literal, PathMatchNode::fresh()));
                }
                (Ghost((i as int, known)), &mut self.literals[i].1)
            },
            PatternComponent::StartsEndsWith(wildcard) => {
                let mut i: usize = 0;
                while i < self.starts_ends_with.len() && wildcard_precedes(
                    &self.starts_ends_with[i].0,
                    &wildcard,
                )
                    invariant
                        i <= self.starts_ends_with@.len(),
                        self.starts_ends_with@ == old(self).starts_ends_with@,
                        forall|j: int|
                            0 <= j < i ==> wildcard_before(
                                (#[trigger] self.starts_ends_with@[j]).0@,
                                wildcard@,
                            ),
                    decreases self.starts_ends_with@.len() - i,
                {
                    i = i + 1;
                }
                let known = i < self.starts_ends_with.len() && self.starts_ends_with[i].0
                    == wildcard;
                if !known {
                    proof {
                        if old(self).sound() {
                            assert forall|j: int|
                                i <= j < self.starts_ends_with@.len() implies wildcard_before(
                                wildcard@,
                                (#[trigger] self.starts_ends_with@[j]).0@,
                            ) by {
                                lemma_wildcard_total(self.starts_ends_with@[i as int].0@, wildcard@);
                                if j > i {
                                    lemma_wildcard_transitive(
                                        wildcard@,
                                        self.starts_ends_with@[i as int].0@,
                                        self.starts_ends_with@[j].0@,
                                    );
                                }
                            }
                        }
                    }
                    self.starts_ends_with.insert(i, (wildcard, PathMatchNode::fresh()));
                }
                (Ghost((i as int, known)), &mut self.starts_ends_with[i].1)
            },
        }
    }

    /// What inserting `added` below `before` leaves: the node has grown by
    /// `added`, and it is sound if it was sound or blank before.
    closed spec fn kept(before: PathMatchNode, after: PathMatchNode, added: Seq<Matcher>) -> bool {
        &&& Self::grown(before, after, added)
        &&& before.sound() || before.blank() ==> after.sound()
    }

    /// What is kept below a grafted child is kept at the node.
    proof fn lemma_kept_above(
        before: PathMatchNode,
        after: PathMatchNode,
        place: (int, bool),
        child: PathMatchNode,
        later: PathMatchNode,
        added: Seq<Matcher>,
    )
        requires
            added.len() > 0,
            Self::grafted(before, after, added[0], place.0, place.1, child, later),
            Self::kept(child, later, added.skip(1)),
        ensures
            Self::kept(before, after, added),
    {
        let rest = added.skip(1);
        assert(later.has_pattern(rest)) by {
            assert(later.leads(rest, true) <==> child.leads(rest, true) || fits(rest, rest, true));
        }
        if before.blank() {
            before.lemma_blank();
        }
        if added[0] is Literal {
            Self::lemma_grafted_literal(before, after, added[0], place.0, place.1, child, later);
        } else {
            Self::lemma_grafted_wildcard(before, after, added[0], place.0, place.1, child, later);
        }
        Self::lemma_graft(before, after, child, later, added);
        if before.sound() {
            Self::lemma_grafted_sound(before, after, added[0], place.0, place.1, child, later);
        }
    }

    /// Marking a node as the end of a pattern inserts the empty pattern.
    proof fn lemma_kept_here(before: PathMatchNode, after: PathMatchNode)
        requires
            after.can_end,
            after.literals == before.literals,
            after.starts_ends_with == before.starts_ends_with,
        ensures
            Self::kept(before, after, Seq::<Matcher>::empty()),
    {
        let added = Seq::<Matcher>::empty();
        assert forall|key: Matcher, other: PathMatchNode|
            after.edge(key, other) == before.edge(key, other) by {}
        assert forall|labels: Seq<Matcher>, terminal: bool|
            #![trigger after.leads(labels, terminal)]
            after.leads(labels, terminal) <==> before.leads(labels, terminal) || fits(
                labels,
                added,
                terminal,
            ) by {
            if labels.len() == 0 {
                assert(labels =~= added);
            }
        }
        if before.blank() {
            before.lemma_blank();
        }
        if before.sound() {
            assert forall|i: int| 0 <= i < after.literals@.len() implies (
            #[trigger] after.literals@[i]).1.sound() && after.literals@[i].1.fertile() by {
                assert(before.literals@[i].1.sound());
            }
            assert forall|i: int| 0 <= i < after.starts_ends_with@.len() implies (
            #[trigger] after.starts_ends_with@[i]).1.sound()
                && after.starts_ends_with@[i].1.fertile() by {
                assert(before.starts_ends_with@[i].1.sound());
            }
        }
    }

    /// What the growth of a node means for its patterns and branches.
    proof fn lemma_kept_means(before: PathMatchNode, after: PathMatchNode, added: Seq<Matcher>)
        requires
            Self::kept(before, after, added),
            added.len() <= usize::MAX,
        ensures
            after.patterns() == before.patterns().insert(added),
            forall|branch: Seq<Matcher>|
                after.has_branch(branch) <==> before.has_branch(branch) || branch.is_prefix_of(
                    added,
                ),
            before.wf() ==> after.wf(),
    {
        assert(after.patterns() =~= before.patterns().insert(added)) by {
            assert forall|labels: Seq<Matcher>|
                after.patterns().contains(labels) <==> before.patterns().insert(added).contains(
                    labels,
                ) by {
                assert(after.leads(labels, true) <==> before.leads(labels, true) || fits(
                    labels,
                    added,
                    true,
                ));
            }
        }
        assert forall|branch: Seq<Matcher>|
            after.has_branch(branch) <==> before.has_branch(branch) || branch.is_prefix_of(
                added,
            ) by {
            assert(after.leads(branch, false) <==> before.leads(branch, false) || fits(
                branch,
                added,
                false,
            ));
        }
        if before.wf() {
            assert forall|branch: Seq<Matcher>| #[trigger]
                after.has_branch(branch) implies branch.len() <= usize::MAX by {
                if before.has_branch(branch) {
                    assert(branch.len() <= usize::MAX);
                } else {
                    assert(branch.is_prefix_of(added));
                }
            }
        }
    }

    /// Adds `pattern` to the trie. The walk goes down from this node along
    /// the edges for the components of the pattern, making those that are
    /// not there yet, so that patterns that begin alike share the nodes of
    /// their common beginning. Every node on the way loses its cached depth
    /// bounds.
    pub fn insert(&mut self, pattern: Vec<PatternComponent>)
        ensures
            final(self).patterns() == old(self).patterns().insert(pattern.deep_view()),
            forall|branch: Seq<Matcher>|
                final(self).has_branch(branch) <==> old(self).has_branch(branch)
                    || branch.is_prefix_of(pattern.deep_view()),
            old(self).wf() ==> final(self).wf(),
            pattern@.len() > 0 ==> final(self).cached_bounds() == (0usize, usize::MAX),
    {
        let ghost whole = pattern.deep_view();
        let ghost root = *self;
        let count = pattern.len();
        proof {
            assert(whole.skip(0) =~= whole);
            assert forall|after: PathMatchNode| #[trigger]
                Self::kept(root, after, whole) implies after.patterns() == root.patterns().insert(
                whole,
            ) && (forall|branch: Seq<Matcher>|
                after.has_branch(branch) <==> root.has_branch(branch) || branch.is_prefix_of(whole))
                && (root.wf() ==> after.wf()) by {
                Self::lemma_kept_means(root, after, whole);
            }
        }
        let mut node = self;
        for head in it: pattern
            invariant
                it.seq() == pattern@,
                whole == pattern.deep_view(),
                root == *old(self),
                Self::kept(*node, *final(node), whole.skip(it.index() as int)) ==> Self::kept(
                    root,
                    *final(self),
                    whole,
                ),
                it.index() == 0 ==> *final(node) == *final(self),
                it.index() > 0 ==> final(self).cached_bounds() == (0usize, usize::MAX),
        {
            let ghost rest = whole.skip(it.index() as int);
            let ghost here = *node;
            assert(head@ == rest[0]);
            let (Ghost(place), child) = node.insert_component(head);
            let ghost first = *child;
            proof {
                assert(rest.skip(1) =~= whole.skip(it.index() + 1));
                assert forall|after: PathMatchNode, later: PathMatchNode| #[trigger]
                    Self::grafted(here, after, rest[0], place.0, place.1, first, later)
                        && Self::kept(first, later, rest.skip(1)) implies Self::kept(
                    here,
                    after,
                    rest,
                ) by {
                    Self::lemma_kept_above(here, after, place, first, later, rest);
                }
            }
            node = child;
        }
        let ghost last = *node;
        node.can_end = true;
        proof {
            assert(whole.skip(whole.len() as int) =~= Seq::<Matcher>::empty());
            Self::lemma_kept_here(last, *node);
        }
    }
}

} // verus!
